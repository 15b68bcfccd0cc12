//! Laws of the port tables of platforms.

use vstd::prelude::*;

use crate::platform::PortView;
use crate::quirks::{Driver, Hook, HookStage};
use crate::schema::{PortEntry, PortGroup, PortsSection};

verus! {

/// The ports of a group count on from its first name and its first index, each
/// with the next lanes; what the group says of its ports holds of each, and an
/// alias counts with the index.
pub proof fn lemma_groups_count_on(g: PortGroup, i: int, k: int)
    requires
        g.lanes_per_port > 0,
        g.lanes@.len() > 0,
        g.lanes@.len() % g.lanes_per_port as nat == 0,
        0 <= i < g.lanes@.len() as int / g.lanes_per_port as int,
        g.index_start + i <= u32::MAX,
        0 <= k < g.lanes_per_port,
    ensures
        crate::platform::group_error(g) is None,
        crate::platform::group_ports(g).len() * g.lanes_per_port == g.lanes@.len(),
        ({
            let p = crate::platform::group_ports(g)[i];
            &&& p.name == g.prefix@ + crate::text::decimal_text((g.name_start + i) as nat)
            &&& p.index == g.index_start + i
            &&& p.lanes.len() == g.lanes_per_port
            &&& p.lanes[k] == g.lanes@[i * g.lanes_per_port + k]
            &&& p.speed_mbps == g.speed_mbps
            &&& g.alias_prefix is None ==> p.alias is None
            &&& g.alias_prefix matches Some(a) ==> p.alias == Some(
                a@ + crate::text::decimal_text((g.index_start + i) as nat),
            )
            &&& p.autoneg == g.autoneg
            &&& g.media is None ==> p.media is None
            &&& g.media matches Some(t) ==> p.media == Some(t@)
            &&& p.breakout == g.breakout.deep_view()
            &&& g.phy_model is None ==> p.phy_model is None
            &&& g.phy_model matches Some(t) ==> p.phy_model == Some(t@)
            &&& p.supported_modes == g.supported_modes.deep_view()
            &&& i < g.sdk_names@.len() ==> p.sdk_name == Some(g.sdk_names@[i]@)
            &&& i >= g.sdk_names@.len() ==> p.sdk_name is None
        }),
{
    let width = g.lanes_per_port as int;
    let len = g.lanes@.len() as int;
    assert(len == width * (len / width)) by (nonlinear_arith)
        requires
            width > 0,
            len % width == 0,
    ;
    assert((len / width) * width == width * (len / width)) by (nonlinear_arith);
    assert(i * width + width <= (len / width) * width) by (nonlinear_arith)
        requires
            0 <= i < len / width,
            width > 0,
    ;
    assert(0 <= i * width) by (nonlinear_arith)
        requires
            0 <= i,
            width > 0,
    ;
    assert(len / width >= 0);
}

/// A group is refused where it has no width, no lanes, or lanes left over.
pub proof fn lemma_bad_groups(g: PortGroup)
    ensures
        crate::platform::group_error(g) is None <==> g.lanes_per_port > 0 && g.lanes@.len() > 0
            && g.lanes@.len() % g.lanes_per_port as nat == 0,
{
}

/// The groups count one by one; the first that is refused refuses the table.
pub proof fn lemma_groups_in_order(groups: Seq<PortGroup>, n: int)
    requires
        0 < n <= groups.len(),
    ensures
        crate::platform::expand_groups(groups, 0) == Ok::<Seq<PortView>, Seq<char>>(Seq::empty()),
        crate::platform::expand_groups(groups, n - 1) matches Ok(front) ==> {
            &&& crate::platform::group_error(groups[n - 1]) is None
                ==> crate::platform::expand_groups(groups, n) == Ok::<Seq<PortView>, Seq<char>>(
                front + crate::platform::group_ports(groups[n - 1]),
            )
            &&& crate::platform::group_error(groups[n - 1]) matches Some(e)
                ==> crate::platform::expand_groups(groups, n) == Err::<Seq<PortView>, Seq<char>>(e)
        },
        crate::platform::expand_groups(groups, n - 1) is Err ==> crate::platform::expand_groups(
            groups,
            n,
        ) == crate::platform::expand_groups(groups, n - 1),
{
}

/// A port that is listed by itself is taken as it is written.
pub proof fn lemma_entries_are_taken(e: PortEntry)
    ensures
        ({
            let p = crate::platform::entry_port(e);
            &&& p.name == e.name@
            &&& p.index == e.index
            &&& p.lanes == e.lanes@
            &&& p.speed_mbps == e.speed_mbps
            &&& e.alias is None ==> p.alias is None
            &&& e.alias matches Some(t) ==> p.alias == Some(t@)
            &&& p.autoneg == e.autoneg
            &&& e.media is None ==> p.media is None
            &&& e.media matches Some(t) ==> p.media == Some(t@)
            &&& p.breakout == e.breakout.deep_view()
            &&& e.phy_model is None ==> p.phy_model is None
            &&& e.phy_model matches Some(t) ==> p.phy_model == Some(t@)
            &&& p.supported_modes == e.supported_modes.deep_view()
            &&& e.sdk_name is None ==> p.sdk_name is None
            &&& e.sdk_name matches Some(t) ==> p.sdk_name == Some(t@)
        }),
{
}

/// The table holds the ports of the groups and the ports listed by themselves,
/// by rising index, none lost or added; a table of no port is refused.
pub proof fn lemma_tables_hold_all_ports(ports: PortsSection)
    ensures
        ({
            let groups = crate::platform::expand_groups(
                ports.groups@,
                ports.groups@.len() as int,
            );
            let r = crate::platform::port_table(ports);
            let singles = Seq::new(
                ports.ports@.len(),
                |i: int| crate::platform::entry_port(ports.ports@[i]),
            );
            &&& groups matches Err(e) ==> r == Err::<Seq<PortView>, Seq<char>>(e)
            &&& groups matches Ok(s) ==> {
                &&& r is Err <==> s.len() == 0 && ports.ports@.len() == 0
                &&& r matches Ok(t) ==> {
                    &&& t.to_multiset() == (s + singles).to_multiset()
                    &&& forall|i: int, j: int|
                        0 <= i < j < t.len() ==> (#[trigger] t[i]).index <= (#[trigger] t[j]).index
                }
            }
        }),
{
    let groups = crate::platform::expand_groups(ports.groups@, ports.groups@.len() as int);
    if let Ok(s) = groups {
        let singles = Seq::new(
            ports.ports@.len(),
            |i: int| crate::platform::entry_port(ports.ports@[i]),
        );
        crate::platform::lemma_by_index_sorts(s + singles);
        let t = crate::platform::by_index(s + singles);
        assert forall|i: int, j: int| 0 <= i < j < t.len() implies (#[trigger] t[i]).index <= (
        #[trigger] t[j]).index by {
            assert(crate::platform::by_index(s + singles)[i].index <= crate::platform::by_index(
                s + singles,
            )[j].index);
        }
    }
}

/// A path from the root stands for itself; another is taken below a directory,
/// with one slash between them.
pub proof fn lemma_paths_join(dir: Seq<char>, path: Seq<char>)
    ensures
        path.len() > 0 && path[0] == '/' ==> crate::platform::join_path_text(dir, path) == path,
        dir.len() == 0 ==> crate::platform::join_path_text(dir, path) == path,
        (path.len() == 0 || path[0] != '/') && dir.len() > 0 && dir.last() == '/'
            ==> crate::platform::join_path_text(dir, path) == dir + path,
        (path.len() == 0 || path[0] != '/') && dir.len() > 0 && dir.last() != '/'
            ==> crate::platform::join_path_text(dir, path) == dir + seq!['/'] + path,
{
    reveal_strlit("/");
    assert("/"@ =~= seq!['/']);
}

/// Which board needs what, and when: one releases its ASIC before the ASIC is
/// set up, one lights its LEDs at the end, and nothing else is done.
pub proof fn lemma_boards_need(d: Driver, stage: HookStage)
    ensures
        crate::quirks::driver_hook(d, stage) == Hook::ReleaseAsic <==> d == Driver::As4610 && stage
            == HookStage::PreAsicInit,
        crate::quirks::driver_hook(d, stage) == Hook::LightLeds <==> d == Driver::Haliburton
            && stage == HookStage::PostHwInit,
{
}

/// The registers that hold the PHYs in reset, and what releases them.
pub proof fn lemma_reset_registers(i: int)
    requires
        0 <= i < 5,
    ensures
        i == 0 ==> crate::quirks::phy_register(i) == 0x07 && crate::quirks::phy_value(i) == 0x02,
        i == 1 ==> crate::quirks::phy_register(i) == 0x08 && crate::quirks::phy_value(i) == 0x02,
        i == 2 ==> crate::quirks::phy_register(i) == 0x0d && crate::quirks::phy_value(i) == 0x01,
        i == 3 ==> crate::quirks::phy_register(i) == 0x19 && crate::quirks::phy_value(i) == 0x00,
        i == 4 ==> crate::quirks::phy_register(i) == 0x1b && crate::quirks::phy_value(i) == 0x00,
{
}

} // verus!
