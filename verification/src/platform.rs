//! Platform manifests: the "platform = data, not code" layer.
//!
//! A platform is a directory under `platforms/` holding a `platform.toml`
//! manifest plus vendor data files. A loaded platform is its manifest, its
//! directory and the port table that the manifest expands to.

use vstd::prelude::*;

use crate::quirks;
use crate::schema::{Manifest, PortEntry, PortGroup, PortsSection, SCHEMA_VERSION};
use crate::text::{cat2, cat3, cat4, copy_option, copy_texts, decimal, quoted, same_text, split};

verus! {

/// Why a platform cannot be loaded.
#[derive(Debug)]
pub enum PlatformError {
    Read { path: String, source: String },
    Parse { path: String, source: String },
    SchemaVersion { found: u32, supported: u32 },
    Ports(String),
    NotFound { id: String, root: String },
    UnknownQuirks(String),
}

/// What a load error says.
pub open spec fn platform_error_text(e: PlatformError) -> Seq<char> {
    match e {
        PlatformError::Read { path, source } => "cannot read "@ + path@ + ": "@ + source@,
        PlatformError::Parse { path, source } => "cannot parse "@ + path@ + ": "@ + source@,
        PlatformError::SchemaVersion { found, supported } => "unsupported schema_version "@
            + crate::text::decimal_text(found as nat) + (" (supported: "@
            + crate::text::decimal_text(supported as nat) + ")"@),
        PlatformError::Ports(what) => "invalid port table: "@ + what@,
        PlatformError::NotFound { id, root } => "platform "@ + crate::text::quoted_text(id@)
            + " not found under "@ + root@,
        PlatformError::UnknownQuirks(name) => "unknown quirks driver "@
            + crate::text::quoted_text(name@),
    }
}

impl PlatformError {
    pub fn message(&self) -> (r: String)
        ensures
            r@ == platform_error_text(*self),
    {
        match self {
            PlatformError::Read { path, source } => cat4(
                "cannot read ",
                path.as_str(),
                ": ",
                source.as_str(),
            ),
            PlatformError::Parse { path, source } => cat4(
                "cannot parse ",
                path.as_str(),
                ": ",
                source.as_str(),
            ),
            PlatformError::SchemaVersion { found, supported } => {
                let tail = cat3(" (supported: ", decimal(*supported as u64).as_str(), ")");
                cat3("unsupported schema_version ", decimal(*found as u64).as_str(), tail.as_str())
            },
            PlatformError::Ports(what) => cat2("invalid port table: ", what.as_str()),
            PlatformError::NotFound { id, root } => cat4(
                "platform ",
                quoted(id.as_str()).as_str(),
                " not found under ",
                root.as_str(),
            ),
            PlatformError::UnknownQuirks(name) => cat2(
                "unknown quirks driver ",
                quoted(name.as_str()).as_str(),
            ),
        }
    }
}

/// One fully expanded front-panel port.
pub struct PortDef {
    pub name: String,
    /// 1-based front-panel index.
    pub index: u32,
    pub lanes: Vec<u32>,
    pub speed_mbps: u32,
    pub alias: Option<String>,
    pub autoneg: bool,
    pub media: Option<String>,
    pub breakout: Vec<String>,
    /// PHY model for `show interfaces phy`; `None` = direct serdes.
    pub phy_model: Option<String>,
    /// Speed/duplex modes for `show interfaces capabilities`.
    pub supported_modes: Vec<String>,
    /// Vendor SDK port name, where the manifest declares one.
    pub sdk_name: Option<String>,
}

/// What a port is, as mathematical values.
pub struct PortView {
    pub name: Seq<char>,
    pub index: u32,
    pub lanes: Seq<u32>,
    pub speed_mbps: u32,
    pub alias: Option<Seq<char>>,
    pub autoneg: bool,
    pub media: Option<Seq<char>>,
    pub breakout: Seq<Seq<char>>,
    pub phy_model: Option<Seq<char>>,
    pub supported_modes: Seq<Seq<char>>,
    pub sdk_name: Option<Seq<char>>,
}

impl DeepView for PortDef {
    type V = PortView;

    open spec fn deep_view(&self) -> PortView {
        PortView {
            name: self.name@,
            index: self.index,
            lanes: self.lanes@,
            speed_mbps: self.speed_mbps,
            alias: crate::text::option_text(self.alias),
            autoneg: self.autoneg,
            media: crate::text::option_text(self.media),
            breakout: self.breakout.deep_view(),
            phy_model: crate::text::option_text(self.phy_model),
            supported_modes: self.supported_modes.deep_view(),
            sdk_name: crate::text::option_text(self.sdk_name),
        }
    }
}

/// A loaded platform: manifest + its directory + the expanded port table.
pub struct Platform {
    pub dir: String,
    pub manifest: Manifest,
    /// Expanded from `[ports]`, sorted by front-panel index.
    pub ports: Vec<PortDef>,
}

// ------------------------------------------------------- the port table

/// Port `i` of a group.
pub open spec fn group_port(g: PortGroup, i: int) -> PortView {
    let width = g.lanes_per_port as int;
    PortView {
        name: g.prefix@ + crate::text::decimal_text((g.name_start + i) as nat),
        index: (g.index_start + i) as u32,
        lanes: g.lanes@.subrange(i * width, i * width + width),
        speed_mbps: g.speed_mbps,
        alias: match g.alias_prefix {
            Some(p) => Some(p@ + crate::text::decimal_text((g.index_start + i) as nat)),
            None => None,
        },
        autoneg: g.autoneg,
        media: crate::text::option_text(g.media),
        breakout: g.breakout.deep_view(),
        phy_model: crate::text::option_text(g.phy_model),
        supported_modes: g.supported_modes.deep_view(),
        sdk_name: if i < g.sdk_names@.len() {
            Some(g.sdk_names@[i]@)
        } else {
            None
        },
    }
}

/// How many ports a group expands to.
pub open spec fn group_size(g: PortGroup) -> int {
    g.lanes@.len() as int / g.lanes_per_port as int
}

/// The ports of a group.
pub open spec fn group_ports(g: PortGroup) -> Seq<PortView> {
    Seq::new(group_size(g) as nat, |i: int| group_port(g, i))
}

/// What is wrong with a group, if anything.
pub open spec fn group_error(g: PortGroup) -> Option<Seq<char>> {
    if g.lanes_per_port == 0 {
        Some(
            "group "@ + crate::text::quoted_text(g.prefix@) + ": lanes_per_port must be >= 1"@,
        )
    } else if g.lanes@.len() == 0 || g.lanes@.len() % g.lanes_per_port as nat != 0 {
        Some(
            "group "@ + crate::text::quoted_text(g.prefix@) + ": lanes length "@ + (
            crate::text::decimal_text(g.lanes@.len())
                + " is not a positive multiple of lanes_per_port "@ + crate::text::decimal_text(
                g.lanes_per_port as nat,
            )),
        )
    } else {
        None
    }
}

/// The numbers of a group's ports stay within 32 bits.
pub open spec fn group_fits(g: PortGroup) -> bool {
    g.index_start + group_size(g) <= 0x1_0000_0000 && g.name_start + group_size(g) <= 0x1_0000_0000
}

/// An explicitly described port.
pub open spec fn entry_port(e: PortEntry) -> PortView {
    PortView {
        name: e.name@,
        index: e.index,
        lanes: e.lanes@,
        speed_mbps: e.speed_mbps,
        alias: crate::text::option_text(e.alias),
        autoneg: e.autoneg,
        media: crate::text::option_text(e.media),
        breakout: e.breakout.deep_view(),
        phy_model: crate::text::option_text(e.phy_model),
        supported_modes: e.supported_modes.deep_view(),
        sdk_name: crate::text::option_text(e.sdk_name),
    }
}

/// The ports of the first `n` groups, or what is wrong with the first
/// bad one.
pub open spec fn expand_groups(groups: Seq<PortGroup>, n: int) -> Result<Seq<PortView>, Seq<char>>
    decreases n,
{
    if n <= 0 {
        Ok(Seq::empty())
    } else {
        match expand_groups(groups, n - 1) {
            Err(e) => Err(e),
            Ok(s) => match group_error(groups[n - 1]) {
                Some(e) => Err(e),
                None => Ok(s + group_ports(groups[n - 1])),
            },
        }
    }
}

/// A port put into a table behind those whose index is not larger.
pub open spec fn insert_by_index(s: Seq<PortView>, p: PortView) -> Seq<PortView>
    decreases s.len(),
{
    if s.len() == 0 || s.last().index <= p.index {
        s.push(p)
    } else {
        insert_by_index(s.drop_last(), p).push(s.last())
    }
}

/// Ports sorted by front-panel index; ports of one index keep their order.
pub open spec fn by_index(s: Seq<PortView>) -> Seq<PortView>
    decreases s.len(),
{
    if s.len() == 0 {
        s
    } else {
        insert_by_index(by_index(s.drop_last()), s.last())
    }
}

/// The port table of a manifest, or what is wrong with it.
pub open spec fn port_table(ports: PortsSection) -> Result<Seq<PortView>, Seq<char>> {
    match expand_groups(ports.groups@, ports.groups@.len() as int) {
        Err(e) => Err(e),
        Ok(s) => {
            let all = s + Seq::new(ports.ports@.len(), |i: int| entry_port(ports.ports@[i]));
            if all.len() == 0 {
                Err(
                    "no ports defined (need at least one [[ports.group]] or [[ports.port]])"@,
                )
            } else {
                Ok(by_index(all))
            }
        },
    }
}

/// The port numbers of every group that is reached fit in 32 bits.
pub open spec fn groups_fit(groups: Seq<PortGroup>) -> bool {
    forall|i: int|
        0 <= i < groups.len() && expand_groups(groups, i + 1) is Ok ==> group_fits(
            #[trigger] groups[i],
        )
}

proof fn lemma_insert_by_index(s: Seq<PortView>, p: PortView)
    ensures
        insert_by_index(s, p).len() == s.len() + 1,
        insert_by_index(s, p).to_multiset() == s.to_multiset().insert(p),
        (forall|i: int, j: int| 0 <= i <= j < s.len() ==> s[i].index <= s[j].index) ==> (forall|
            i: int,
            j: int,
        |
            0 <= i <= j < s.len() + 1 ==> #[trigger] insert_by_index(s, p)[i].index
                <= #[trigger] insert_by_index(s, p)[j].index),
        forall|i: int|
            0 <= i < s.len() + 1 ==> (#[trigger] insert_by_index(s, p)[i]) == p || s.contains(
                insert_by_index(s, p)[i],
            ),
    decreases s.len(),
{
    broadcast use vstd::seq_lib::group_to_multiset_ensures;

    let r = insert_by_index(s, p);
    if s.len() == 0 || s.last().index <= p.index {
        assert forall|i: int| 0 <= i < s.len() + 1 implies (#[trigger] r[i]) == p || s.contains(
            r[i],
        ) by {
            if i < s.len() {
                assert(s[i] == r[i]);
            }
        }
    } else {
        lemma_insert_by_index(s.drop_last(), p);
        let t = insert_by_index(s.drop_last(), p);
        assert(s =~= s.drop_last().push(s.last()));
        assert forall|i: int| 0 <= i < s.len() + 1 implies (#[trigger] r[i]) == p || s.contains(
            r[i],
        ) by {
            if i < s.len() {
                assert(r[i] == t[i]);
                if t[i] != p {
                    let k = choose|k: int| 0 <= k < s.drop_last().len() && s.drop_last()[k] == t[i];
                    assert(s[k] == r[i]);
                }
            } else {
                assert(s[s.len() - 1] == r[i]);
            }
        }
        if forall|i: int, j: int| 0 <= i <= j < s.len() ==> s[i].index <= s[j].index {
            assert forall|i: int, j: int| 0 <= i <= j < s.len() + 1 implies (
            #[trigger] r[i]).index <= (#[trigger] r[j]).index by {
                if j == s.len() && i < j {
                    assert(r[i] == t[i]);
                    if t[i] != p {
                        assert(s.drop_last().contains(t[i]));
                        let k = choose|k: int|
                            0 <= k < s.drop_last().len() && s.drop_last()[k] == t[i];
                        assert(s[k].index <= s[s.len() - 1].index);
                    }
                } else if j < s.len() {
                    assert(r[i] == t[i] && r[j] == t[j]);
                }
            }
        }
        assert(s.to_multiset() == s.drop_last().to_multiset().insert(s.last()));
        assert(r.to_multiset() =~= t.to_multiset().insert(s.last()));
        assert(r.to_multiset() =~= s.to_multiset().insert(p));
    }
}

/// The port table holds exactly the expanded ports, in rising order of
/// their front-panel index.
pub proof fn lemma_by_index_sorts(s: Seq<PortView>)
    ensures
        by_index(s).len() == s.len(),
        by_index(s).to_multiset() == s.to_multiset(),
        forall|i: int, j: int|
            0 <= i <= j < s.len() ==> #[trigger] by_index(s)[i].index <= #[trigger] by_index(
                s,
            )[j].index,
    decreases s.len(),
{
    broadcast use vstd::seq_lib::group_to_multiset_ensures;

    if s.len() > 0 {
        lemma_by_index_sorts(s.drop_last());
        lemma_insert_by_index(by_index(s.drop_last()), s.last());
        assert(s =~= s.drop_last().push(s.last()));
        assert(s.to_multiset() == s.drop_last().to_multiset().insert(s.last()));
    }
}

/// The test for one front-panel index.
pub open spec fn has_index(index: u32) -> spec_fn(PortView) -> bool {
    |p: PortView| p.index == index
}

/// Ports of one front-panel index keep the order in which they were
/// described.
pub proof fn lemma_by_index_stable(s: Seq<PortView>, index: u32)
    ensures
        by_index(s).filter(has_index(index)) == s.filter(has_index(index)),
    decreases s.len(),
{
    let same = has_index(index);
    if s.len() > 0 {
        lemma_by_index_stable(s.drop_last(), index);
        lemma_by_index_sorts(s.drop_last());
        lemma_insert_filter(by_index(s.drop_last()), s.last(), index);
        assert(s =~= s.drop_last().push(s.last()));
        s.drop_last().lemma_filter_push(s.last(), same);
        by_index(s.drop_last()).lemma_filter_push(s.last(), same);
    }
}

proof fn lemma_insert_filter(s: Seq<PortView>, p: PortView, index: u32)
    requires
        forall|i: int, j: int| 0 <= i <= j < s.len() ==> s[i].index <= s[j].index,
    ensures
        insert_by_index(s, p).filter(has_index(index)) == s.push(p).filter(has_index(index)),
    decreases s.len(),
{
    let same = has_index(index);
    if s.len() == 0 || s.last().index <= p.index {
    } else {
        let front = s.drop_last();
        lemma_insert_filter(front, p, index);
        let t = insert_by_index(front, p);
        t.lemma_filter_push(s.last(), same);
        front.lemma_filter_push(p, same);
        front.lemma_filter_push(s.last(), same);
        assert(s =~= front.push(s.last()));
        s.lemma_filter_push(p, same);
    }
}

fn copy_lanes(lanes: &Vec<u32>, from: usize, to: usize) -> (r: Vec<u32>)
    requires
        from <= to <= lanes@.len(),
    ensures
        r@ == lanes@.subrange(from as int, to as int),
{
    let mut r: Vec<u32> = Vec::new();
    let mut i: usize = from;
    while i < to
        invariant
            from <= i <= to <= lanes@.len(),
            r@ == lanes@.subrange(from as int, i as int),
        decreases to - i,
    {
        r.push(lanes[i]);
        assert(lanes@.subrange(from as int, i + 1) =~= lanes@.subrange(from as int, i as int).push(
            lanes@[i as int],
        ));
        i = i + 1;
    }
    r
}

/// Put a port into a sorted table.
fn insert_port(ports: &mut Vec<PortDef>, port: PortDef)
    ensures
        final(ports).deep_view() == insert_by_index(old(ports).deep_view(), port.deep_view()),
    decreases old(ports)@.len(),
{
    let ghost before = ports.deep_view();
    let len: usize = ports.len();
    if len == 0 || ports[len - 1].index <= port.index {
        if len > 0 {
            assert(before.last() == ports@.last().deep_view());
        }
        ports.push(port);
        assert(ports.deep_view() =~= before.push(port.deep_view()));
    } else {
        assert(before.last() == ports@.last().deep_view());
        match ports.pop() {
            Some(last) => {
                assert(ports.deep_view() =~= before.drop_last());
                insert_port(ports, port);
                let ghost mid = ports.deep_view();
                ports.push(last);
                assert(ports.deep_view() =~= mid.push(last.deep_view()));
            },
            None => {},
        }
    }
}

/// Port `i` of a group.
fn make_group_port(group: &PortGroup, i: usize) -> (port: PortDef)
    requires
        group_error(*group) is None,
        group_fits(*group),
        i < group_size(*group),
    ensures
        port.deep_view() == group_port(*group, i as int),
{
    let width: usize = group.lanes_per_port as usize;
    let count: usize = group.lanes.len();
    assert(i * width + width <= count) by (nonlinear_arith)
        requires
            i + 1 <= count as int / width as int,
            width > 0,
    ;
    assert(0 <= i * width) by (nonlinear_arith)
        requires
            i >= 0,
            width > 0,
    ;
    let index: u32 = group.index_start + i as u32;
    let number: u32 = group.name_start + i as u32;
    let lanes = copy_lanes(&group.lanes, i * width, i * width + width);
    let alias = match &group.alias_prefix {
        Some(p) => Some(cat2(p.as_str(), decimal(index as u64).as_str())),
        None => None,
    };
    let sdk_name = if i < group.sdk_names.len() {
        Some(group.sdk_names[i].clone())
    } else {
        None
    };
    let port = PortDef {
        name: cat2(group.prefix.as_str(), decimal(number as u64).as_str()),
        index,
        lanes,
        speed_mbps: group.speed_mbps,
        alias,
        autoneg: group.autoneg,
        media: copy_option(&group.media),
        breakout: copy_texts(&group.breakout),
        phy_model: copy_option(&group.phy_model),
        supported_modes: copy_texts(&group.supported_modes),
        sdk_name,
    };
    assert(port.breakout.deep_view() =~= group.breakout.deep_view());
    assert(port.supported_modes.deep_view() =~= group.supported_modes.deep_view());
    port
}

fn make_entry_port(entry: &PortEntry) -> (port: PortDef)
    ensures
        port.deep_view() == entry_port(*entry),
{
    let port = PortDef {
        name: entry.name.clone(),
        index: entry.index,
        lanes: copy_lanes(&entry.lanes, 0, entry.lanes.len()),
        speed_mbps: entry.speed_mbps,
        alias: copy_option(&entry.alias),
        autoneg: entry.autoneg,
        media: copy_option(&entry.media),
        breakout: copy_texts(&entry.breakout),
        phy_model: copy_option(&entry.phy_model),
        supported_modes: copy_texts(&entry.supported_modes),
        sdk_name: copy_option(&entry.sdk_name),
    };
    assert(port.lanes@ =~= entry.lanes@);
    assert(port.breakout.deep_view() =~= entry.breakout.deep_view());
    assert(port.supported_modes.deep_view() =~= entry.supported_modes.deep_view());
    port
}

/// What is wrong with a group.
fn check_group(group: &PortGroup) -> (r: Option<String>)
    ensures
        match r {
            Some(e) => group_error(*group) == Some(e@),
            None => group_error(*group) is None,
        },
{
    if group.lanes_per_port == 0 {
        return Some(
            cat3("group ", quoted(group.prefix.as_str()).as_str(), ": lanes_per_port must be >= 1"),
        );
    }
    let width: usize = group.lanes_per_port as usize;
    let count: usize = group.lanes.len();
    if count == 0 || count % width != 0 {
        let tail = cat3(
            decimal(count as u64).as_str(),
            " is not a positive multiple of lanes_per_port ",
            decimal(width as u64).as_str(),
        );
        return Some(
            cat4("group ", quoted(group.prefix.as_str()).as_str(), ": lanes length ", tail.as_str()),
        );
    }
    None
}

proof fn lemma_by_index_push(s: Seq<PortView>, p: PortView)
    ensures
        by_index(s.push(p)) == insert_by_index(by_index(s), p),
{
    assert(s.push(p).drop_last() =~= s);
}

proof fn lemma_expand_err(groups: Seq<PortGroup>, n: int, m: int)
    requires
        0 <= n <= m,
        expand_groups(groups, n) is Err,
    ensures
        expand_groups(groups, m) == expand_groups(groups, n),
    decreases m - n,
{
    if n < m {
        lemma_expand_err(groups, n, m - 1);
    }
}

/// Do the port numbers of every group that is reached fit in 32 bits?
pub fn numbers_fit(groups: &Vec<PortGroup>) -> (r: bool)
    ensures
        r == groups_fit(groups@),
{
    let mut g: usize = 0;
    while g < groups.len()
        invariant
            g <= groups@.len(),
            expand_groups(groups@, g as int) is Ok,
            forall|i: int| 0 <= i < g ==> group_fits(#[trigger] groups@[i]),
        decreases groups@.len() - g,
    {
        let group = &groups[g];
        if check_group(group).is_some() {
            assert forall|i: int|
                0 <= i < groups@.len() && expand_groups(groups@, i + 1) is Ok implies group_fits(
                #[trigger] groups@[i],
            ) by {
                if i >= g {
                    lemma_expand_err(groups@, g + 1, i + 1);
                }
            }
            return true;
        }
        assert(expand_groups(groups@, g + 1) is Ok);
        let count: usize = group.lanes.len() / group.lanes_per_port as usize;
        if group.index_start as u128 + count as u128 > 0x1_0000_0000
            || group.name_start as u128 + count as u128 > 0x1_0000_0000 {
            assert(!group_fits(groups@[g as int]));
            return false;
        }
        g = g + 1;
    }
    true
}

/// Expand groups + explicit entries into the flat port table.
pub fn expand_ports(manifest: &Manifest) -> (r: Result<Vec<PortDef>, PlatformError>)
    requires
        groups_fit(manifest.ports.groups@),
    ensures
        match r {
            Ok(ports) => port_table(manifest.ports) == Ok::<Seq<PortView>, Seq<char>>(
                ports.deep_view(),
            ),
            Err(e) => e matches PlatformError::Ports(what) && port_table(manifest.ports) == Err::<
                Seq<PortView>,
                Seq<char>,
            >(what@),
        },
{
    let ghost groups = manifest.ports.groups@;
    let ghost entries = manifest.ports.ports@;
    let mut ports: Vec<PortDef> = Vec::new();
    let ghost mut raw: Seq<PortView> = Seq::empty();
    assert(ports.deep_view() =~= by_index(raw));
    let mut g: usize = 0;
    while g < manifest.ports.groups.len()
        invariant
            g <= groups.len(),
            groups == manifest.ports.groups@,
            groups_fit(groups),
            expand_groups(groups, g as int) == Ok::<Seq<PortView>, Seq<char>>(raw),
            ports.deep_view() == by_index(raw),
        decreases groups.len() - g,
    {
        let group = &manifest.ports.groups[g];
        match check_group(group) {
            Some(e) => {
                proof {
                    lemma_expand_err(groups, g + 1, groups.len() as int);
                }
                return Err(PlatformError::Ports(e));
            },
            None => {},
        }
        assert(expand_groups(groups, g + 1) is Ok);
        assert(group_fits(groups[g as int]));
        let width: usize = group.lanes_per_port as usize;
        let count: usize = group.lanes.len() / width;
        let ghost before = raw;
        let ghost fresh = group_ports(*group);
        assert(before + fresh.take(0) =~= before);
        let mut i: usize = 0;
        while i < count
            invariant
                i <= count,
                count == group_size(*group),
                group_error(*group) is None,
                group_fits(*group),
                fresh == group_ports(*group),
                raw == before + fresh.take(i as int),
                ports.deep_view() == by_index(raw),
            decreases count - i,
        {
            let port = make_group_port(group, i);
            proof {
                lemma_by_index_push(raw, port.deep_view());
            }
            insert_port(&mut ports, port);
            proof {
                assert(before + fresh.take(i + 1) =~= raw.push(fresh[i as int]));
                raw = before + fresh.take(i + 1);
            }
            i = i + 1;
        }
        assert(fresh.take(count as int) =~= fresh);
        g = g + 1;
    }
    let ghost before = raw;
    let ghost fresh = Seq::new(entries.len(), |i: int| entry_port(entries[i]));
    assert(before + fresh.take(0) =~= before);
    let mut i: usize = 0;
    while i < manifest.ports.ports.len()
        invariant
            i <= entries.len(),
            entries == manifest.ports.ports@,
            fresh == Seq::new(entries.len(), |i: int| entry_port(entries[i])),
            raw == before + fresh.take(i as int),
            ports.deep_view() == by_index(raw),
        decreases entries.len() - i,
    {
        let port = make_entry_port(&manifest.ports.ports[i]);
        proof {
            lemma_by_index_push(raw, port.deep_view());
        }
        insert_port(&mut ports, port);
        proof {
            assert(before + fresh.take(i + 1) =~= raw.push(fresh[i as int]));
            raw = before + fresh.take(i + 1);
        }
        i = i + 1;
    }
    assert(fresh.take(entries.len() as int) =~= fresh);
    proof {
        lemma_by_index_sorts(raw);
    }
    assert(ports.deep_view().len() == ports@.len());
    if ports.len() == 0 {
        return Err(
            PlatformError::Ports(
                "no ports defined (need at least one [[ports.group]] or [[ports.port]])".to_owned(),
            ),
        );
    }
    Ok(ports)
}

// ---------------------------------------------------------------- paths

/// Does a path start at the root?
pub open spec fn has_root(path: Seq<char>) -> bool {
    path.len() > 0 && path[0] == '/'
}

/// Is a path absolute?
pub fn is_rooted(path: &str) -> (r: bool)
    ensures
        r == has_root(path@),
{
    if path.is_empty() {
        return false;
    }
    path.get_char(0) == '/'
}

/// A path below a directory; an absolute path replaces the directory.
pub open spec fn join_path_text(dir: Seq<char>, path: Seq<char>) -> Seq<char> {
    if has_root(path) || dir.len() == 0 {
        path
    } else if dir.last() == '/' {
        dir + path
    } else {
        dir + "/"@ + path
    }
}

pub fn join_path(dir: &str, path: &str) -> (r: String)
    ensures
        r@ == join_path_text(dir@, path@),
{
    if is_rooted(path) || dir.is_empty() {
        return path.to_owned();
    }
    let len: usize = dir.unicode_len();
    if dir.get_char(len - 1) == '/' {
        cat2(dir, path)
    } else {
        cat3(dir, "/", path)
    }
}

/// Does a piece of a path name anything? Empty pieces and `.` do not.
pub open spec fn names_something(piece: Seq<char>) -> bool {
    piece.len() > 0 && piece != "."@
}

/// The last of some pieces that names something.
pub open spec fn last_named(pieces: Seq<Seq<char>>) -> Option<Seq<char>>
    decreases pieces.len(),
{
    if pieces.len() == 0 {
        None
    } else if names_something(pieces.last()) {
        Some(pieces.last())
    } else {
        last_named(pieces.drop_last())
    }
}

/// The name of the file or directory that a path leads to; none where the
/// path ends in `..` or names nothing.
pub open spec fn file_name_text(path: Seq<char>) -> Option<Seq<char>> {
    match last_named(crate::text::split_text(path, '/')) {
        Some(name) => if name == ".."@ {
            None
        } else {
            Some(name)
        },
        None => None,
    }
}

pub fn file_name(path: &str) -> (r: Option<String>)
    ensures
        match r {
            Some(name) => file_name_text(path@) == Some(name@),
            None => file_name_text(path@) is None,
        },
{
    let parts = split(path, '/');
    let ghost all = parts.deep_view();
    let mut i: usize = parts.len();
    assert(all.take(i as int) =~= all);
    while i > 0
        invariant
            i <= parts@.len(),
            all == parts.deep_view(),
            last_named(all) == last_named(all.take(i as int)),
            all == crate::text::split_text(path@, '/'),
        decreases i,
    {
        let piece = &parts[i - 1];
        assert(all.take(i as int).last() == piece@);
        assert(all.take(i as int).drop_last() =~= all.take(i - 1));
        if !piece.as_str().is_empty() && !same_text(piece.as_str(), ".") {
            if same_text(piece.as_str(), "..") {
                return None;
            }
            return Some(piece.clone());
        }
        i = i - 1;
    }
    None
}

// ------------------------------------------------------------- platform

impl Platform {
    /// Make a platform of the manifest found in a directory.
    pub fn load(dir: String, manifest: Manifest) -> (r: Result<Self, PlatformError>)
        requires
            manifest.schema_version == SCHEMA_VERSION ==> groups_fit(manifest.ports.groups@),
        ensures
            match r {
                Ok(p) => manifest.schema_version == SCHEMA_VERSION && p.dir == dir && p.manifest
                    == manifest && port_table(manifest.ports) == Ok::<Seq<PortView>, Seq<char>>(
                    p.ports.deep_view(),
                ),
                Err(e) => if manifest.schema_version != SCHEMA_VERSION {
                    e == (PlatformError::SchemaVersion {
                        found: manifest.schema_version,
                        supported: SCHEMA_VERSION,
                    })
                } else {
                    e matches PlatformError::Ports(what) && port_table(manifest.ports) == Err::<
                        Seq<PortView>,
                        Seq<char>,
                    >(what@)
                },
            },
    {
        if manifest.schema_version != SCHEMA_VERSION {
            return Err(
                PlatformError::SchemaVersion {
                    found: manifest.schema_version,
                    supported: SCHEMA_VERSION,
                },
            );
        }
        match expand_ports(&manifest) {
            Ok(ports) => Ok(Platform { dir, manifest, ports }),
            Err(e) => Err(e),
        }
    }

    /// Where a platform is loaded from: a directory path as it is, or else a
    /// platform's id under a `platforms/` root. The caller says which of the
    /// two is a directory.
    pub fn find(
        platforms_root: &str,
        id_or_path: &str,
        is_dir: bool,
        is_under_root: bool,
    ) -> (r: Result<String, PlatformError>)
        ensures
            match r {
                Ok(dir) => dir@ == if is_dir {
                    id_or_path@
                } else {
                    join_path_text(platforms_root@, id_or_path@)
                } && (is_dir || is_under_root),
                Err(e) => {
                    &&& !is_dir && !is_under_root
                    &&& e matches PlatformError::NotFound { id, root } && id@ == id_or_path@
                        && root@ == platforms_root@
                },
            },
    {
        if is_dir {
            Ok(id_or_path.to_owned())
        } else if is_under_root {
            Ok(join_path(platforms_root, id_or_path))
        } else {
            Err(
                PlatformError::NotFound {
                    id: id_or_path.to_owned(),
                    root: platforms_root.to_owned(),
                },
            )
        }
    }

    /// Path of the ASIC init config (`config.bcm`).
    pub fn config_bcm_path(&self) -> (r: String)
        ensures
            r@ == join_path_text(self.dir@, self.manifest.sai.config_bcm@),
    {
        join_path(self.dir.as_str(), self.manifest.sai.config_bcm.as_str())
    }

    /// Paths of the SAI extra files (LED microcode etc.).
    pub fn extra_file_paths(&self) -> (r: Vec<String>)
        ensures
            r.deep_view() == Seq::new(
                self.manifest.sai.extra_files@.len(),
                |i: int| join_path_text(self.dir@, self.manifest.sai.extra_files@[i]@),
            ),
    {
        let files = &self.manifest.sai.extra_files;
        let mut r: Vec<String> = Vec::new();
        let mut i: usize = 0;
        while i < files.len()
            invariant
                i <= files@.len(),
                files@ == self.manifest.sai.extra_files@,
                r@.len() == i,
                forall|j: int|
                    0 <= j < i ==> (#[trigger] r@[j])@ == join_path_text(self.dir@, files@[j]@),
            decreases files@.len() - i,
        {
            r.push(join_path(self.dir.as_str(), files[i].as_str()));
            i = i + 1;
        }
        assert(r.deep_view() =~= Seq::new(
            self.manifest.sai.extra_files@.len(),
            |i: int| join_path_text(self.dir@, self.manifest.sai.extra_files@[i]@),
        ));
        r
    }

    /// The registered quirks driver named by the manifest.
    pub fn quirks(&self) -> (r: Result<quirks::Driver, PlatformError>)
        ensures
            match r {
                Ok(d) => quirks::driver_named(self.manifest.hardware.quirks.driver@) == Some(d),
                Err(e) => quirks::driver_named(self.manifest.hardware.quirks.driver@) is None && e
                    == PlatformError::UnknownQuirks(self.manifest.hardware.quirks.driver),
            },
    {
        match quirks::by_name(self.manifest.hardware.quirks.driver.as_str()) {
            Some(d) => Ok(d),
            None => Err(PlatformError::UnknownQuirks(self.manifest.hardware.quirks.driver.clone())),
        }
    }

    /// The first port of a name.
    pub fn port(&self, name: &str) -> (r: Option<&PortDef>)
        ensures
            match r {
                Some(p) => exists|i: int|
                    0 <= i < self.ports@.len() && *p == #[trigger] self.ports@[i] && p.name@ == name@
                        && (forall|j: int| 0 <= j < i ==> self.ports@[j].name@ != name@),
                None => forall|j: int|
                    0 <= j < self.ports@.len() ==> (#[trigger] self.ports@[j]).name@ != name@,
            },
    {
        let mut i: usize = 0;
        while i < self.ports.len()
            invariant
                i <= self.ports@.len(),
                forall|j: int| 0 <= j < i ==> (#[trigger] self.ports@[j]).name@ != name@,
            decreases self.ports@.len() - i,
        {
            if same_text(self.ports[i].name.as_str(), name) {
                assert(self.ports@[i as int].name@ == name@);
                return Some(&self.ports[i]);
            }
            i = i + 1;
        }
        None
    }
}

} // verus!
