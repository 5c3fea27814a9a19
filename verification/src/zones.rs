//! DNS zones stored in the directory: where zones are searched, which zones
//! and nodes the views list, and the changes that add and delete records.

use vstd::prelude::*;
use vstd::string::StringSliceAdditionalSpecFns;
use crate::text::{chars_of, concat2, concat3, lowercase, owned, to_lowercase};
use crate::sort::SortKey;
use crate::directory::{Entry, Listed, attr, attr_spec, list_entries, listing};
use crate::encoding::{from_hex, from_hex_spec, hex_spec, to_hex};
use crate::dns::{parse_dns_record_binary, parse_record_spec};
use crate::requests::{
    ModOp, Modification, NewEntry, attr_many, attr_one, attr_view, attrs_view, mod_view, mods_view,
    lemma_object_classes_distinct, mod_values_distinct, single, strings2, text_attr, text_mod, values_distinct,
};

verus! {

broadcast use vstd::string::group_string_axioms;

// ── where zones live ─────────────────────────────────────────────────────────

/// The containers searched for zones, in order: the domain DNS partition,
/// the legacy System container, and the partition root.
pub fn zone_search_bases(base_dn: &str) -> (r: Vec<String>)
    ensures
        r.deep_view() == seq![
            "CN=MicrosoftDNS,DC=DomainDnsZones,"@ + base_dn@,
            "CN=MicrosoftDNS,CN=System,"@ + base_dn@,
            "DC=DomainDnsZones,"@ + base_dn@,
        ],
{
    let mut r: Vec<String> = Vec::new();
    r.push(concat2("CN=MicrosoftDNS,DC=DomainDnsZones,", base_dn));
    r.push(concat2("CN=MicrosoftDNS,CN=System,", base_dn));
    r.push(concat2("DC=DomainDnsZones,", base_dn));
    assert(r.deep_view() =~= seq![
        "CN=MicrosoftDNS,DC=DomainDnsZones,"@ + base_dn@,
        "CN=MicrosoftDNS,CN=System,"@ + base_dn@,
        "DC=DomainDnsZones,"@ + base_dn@,
    ]);
    r
}

/// What to do after searching the zone container `index` of `count`: the
/// next container to search when this one gave nothing, or `None` to stop
/// (a container answered, or none is left).
pub fn next_zone_base(index: usize, count: usize, found: bool) -> (r: Option<usize>)
    ensures
        r == (if !found && index + 1 < count {
            Some((index + 1) as usize)
        } else {
            None::<usize>
        }),
{
    if !found && index < count && index + 1 < count {
        Some(index + 1)
    } else {
        None
    }
}

/// The search filter that finds a zone by name.
pub fn zone_lookup_filter(zone_name: &str) -> (r: String)
    ensures
        r@ == "(&(objectClass=dnsZone)(dc="@ + zone_name@ + "))"@,
{
    concat3("(&(objectClass=dnsZone)(dc=", zone_name, "))")
}

/// The DN of a node (a name) in a zone.
pub fn node_dn(node_name: &str, zone_dn: &str) -> (r: String)
    ensures
        r@ == "DC="@ + node_name@ + ","@ + zone_dn@,
{
    let head = concat3("DC=", node_name, ",");
    concat2(head.as_str(), zone_dn)
}

// ── zones ────────────────────────────────────────────────────────────────────

/// A DNS zone as listed.
pub struct LdapDnsZone {
    pub dn: String,
    pub name: String,
}

/// Whether a zone is listed: it has a name that is not internal (starting
/// with `_` or `.`) and is not the root hints zone.
pub open spec fn zone_listed(name: Seq<char>) -> bool {
    &&& name.len() > 0
    &&& name[0] != '_'
    &&& name[0] != '.'
    &&& name != "RootDNSServers"@
}

impl SortKey for LdapDnsZone {
    open spec fn sort_key(&self) -> Seq<char> {
        self.name@
    }

    fn key_chars(&self) -> (k: Vec<char>) {
        chars_of(self.name.as_str())
    }
}

impl Listed for LdapDnsZone {
    open spec fn shown(e: Entry, base: Seq<char>) -> bool {
        zone_listed(attr_spec(e, "dc"@))
    }

    open spec fn entry_key(e: Entry, base: Seq<char>) -> Seq<char> {
        attr_spec(e, "dc"@)
    }

    open spec fn shows(self, e: Entry, base: Seq<char>) -> bool {
        self.dn@ == e.dn@ && self.name@ == attr_spec(e, "dc"@)
    }

    fn read(e: &Entry, base: &str) -> (r: Option<Self>) {
        let name = attr(e, "dc");
        let c = chars_of(name.as_str());
        let root = owned("RootDNSServers");
        if c.len() == 0 || c[0] == '_' || c[0] == '.' || name == root {
            None
        } else {
            Some(LdapDnsZone { dn: e.dn.clone(), name })
        }
    }
}

/// The zones of a search of a zone container: listed zones ordered by name.
pub fn zones_from_entries(entries: &Vec<Entry>) -> (r: Vec<LdapDnsZone>)
    ensures
        listing(r@, entries@, Seq::empty()),
{
    proof {
        reveal_strlit("");
        assert(""@ =~= Seq::<char>::empty());
    }
    list_entries(entries, "")
}

// ── records ──────────────────────────────────────────────────────────────────

/// One record of a node, decoded.
pub struct DnsRecord {
    pub node_name: String,
    pub record_type: String,
    pub value: String,
    pub ttl: u32,
    pub raw_hex: String,
}

/// A node of a zone and its records.
pub struct DnsNode {
    pub name: String,
    pub records: Vec<DnsRecord>,
}

/// The values of the first binary attribute named `key`.
pub open spec fn bin_values(attrs: Seq<(String, Vec<Vec<u8>>)>, key: Seq<char>) -> Option<
    Seq<Seq<u8>>,
>
    decreases attrs.len(),
{
    if attrs.len() == 0 {
        None
    } else if attrs[0].0@ == key {
        Some(attrs[0].1.deep_view())
    } else {
        bin_values(attrs.drop_first(), key)
    }
}

/// Whether `name` spells `key` (written in lower case) once its ASCII
/// capitals are lowered.
pub open spec fn lowers_to(name: Seq<char>, key: Seq<char>) -> bool {
    &&& name.len() == key.len()
    &&& forall|i: int|
        0 <= i < name.len() ==> if 'A' <= #[trigger] name[i] && name[i] <= 'Z' {
            name[i] as u32 + 32 == key[i] as u32
        } else {
            name[i] == key[i]
        }
}

/// The values of the first binary attribute whose name is `key` up to ASCII
/// case (`key` in lower case).
pub open spec fn bin_values_ci(attrs: Seq<(String, Vec<Vec<u8>>)>, key: Seq<char>) -> Option<
    Seq<Seq<u8>>,
>
    decreases attrs.len(),
{
    if attrs.len() == 0 {
        None
    } else if lowers_to(attrs[0].0@, key) {
        Some(attrs[0].1.deep_view())
    } else {
        bin_values_ci(attrs.drop_first(), key)
    }
}

/// The raw `dnsRecord` values of a node. The attribute name is matched
/// without regard to case (the server may send it as `dnsrecord`); an
/// attribute spelled exactly `dnsRecord` is taken first.
pub open spec fn raw_records(e: Entry) -> Seq<Seq<u8>> {
    match bin_values(e.bin_attrs@, "dnsRecord"@) {
        Some(v) => v,
        None => match bin_values_ci(e.bin_attrs@, "dnsrecord"@) {
            Some(v) => v,
            None => Seq::empty(),
        },
    }
}

/// A record as node name, type, value, TTL and raw hex.
pub open spec fn record_view(r: DnsRecord) -> (Seq<char>, Seq<char>, Seq<char>, u32, Seq<char>) {
    (r.node_name@, r.record_type@, r.value@, r.ttl, r.raw_hex@)
}

/// The decoded records of raw values, in order; tombstones and values too
/// short to decode are left out.
pub open spec fn decoded_records(name: Seq<char>, raws: Seq<Seq<u8>>) -> Seq<
    (Seq<char>, Seq<char>, Seq<char>, u32, Seq<char>),
>
    decreases raws.len(),
{
    if raws.len() == 0 {
        Seq::empty()
    } else {
        let prev = decoded_records(name, raws.drop_last());
        match parse_record_spec(raws.last()) {
            Some((t, v, ttl)) => prev.push((name, t, v, ttl, hex_spec(raws.last()))),
            None => prev,
        }
    }
}

/// The values of binary attribute `key`, if present.
fn bin_attr<'a>(e: &'a Entry, key: &str) -> (r: Option<&'a Vec<Vec<u8>>>)
    ensures
        match r {
            Some(v) => bin_values(e.bin_attrs@, key@) == Some(v.deep_view()),
            None => bin_values(e.bin_attrs@, key@) is None,
        },
{
    let k = owned(key);
    let mut i: usize = 0;
    assert(e.bin_attrs@.skip(0) =~= e.bin_attrs@);
    while i < e.bin_attrs.len()
        invariant
            i <= e.bin_attrs@.len(),
            k@ == key@,
            bin_values(e.bin_attrs@, key@) == bin_values(e.bin_attrs@.skip(i as int), key@),
        decreases e.bin_attrs@.len() - i,
    {
        assert(e.bin_attrs@.skip(i as int).drop_first() =~= e.bin_attrs@.skip(i + 1));
        if e.bin_attrs[i].0 == k {
            return Some(&e.bin_attrs[i].1);
        }
        i += 1;
    }
    None
}

/// Whether `name` spells `key` (in lower case) up to ASCII case.
fn name_lowers_to(name: &str, key: &str) -> (r: bool)
    ensures
        r == lowers_to(name@, key@),
{
    let n = chars_of(name);
    let k = chars_of(key);
    if n.len() != k.len() {
        return false;
    }
    let mut i: usize = 0;
    while i < n.len()
        invariant
            i <= n@.len(),
            n@ == name@,
            k@ == key@,
            n@.len() == k@.len(),
            forall|j: int|
                0 <= j < i ==> if 'A' <= #[trigger] n@[j] && n@[j] <= 'Z' {
                    n@[j] as u32 + 32 == k@[j] as u32
                } else {
                    n@[j] == k@[j]
                },
        decreases n@.len() - i,
    {
        let c = n[i];
        let d = k[i];
        let same = if 'A' <= c && c <= 'Z' {
            (c as u32) + 32 == (d as u32)
        } else {
            c == d
        };
        if !same {
            return false;
        }
        i += 1;
    }
    true
}

/// The values of the first binary attribute named `key` up to ASCII case.
fn bin_attr_ci<'a>(e: &'a Entry, key: &str) -> (r: Option<&'a Vec<Vec<u8>>>)
    ensures
        match r {
            Some(v) => bin_values_ci(e.bin_attrs@, key@) == Some(v.deep_view()),
            None => bin_values_ci(e.bin_attrs@, key@) is None,
        },
{
    let mut i: usize = 0;
    assert(e.bin_attrs@.skip(0) =~= e.bin_attrs@);
    while i < e.bin_attrs.len()
        invariant
            i <= e.bin_attrs@.len(),
            bin_values_ci(e.bin_attrs@, key@) == bin_values_ci(e.bin_attrs@.skip(i as int), key@),
        decreases e.bin_attrs@.len() - i,
    {
        assert(e.bin_attrs@.skip(i as int).drop_first() =~= e.bin_attrs@.skip(i + 1));
        if name_lowers_to(e.bin_attrs[i].0.as_str(), key) {
            return Some(&e.bin_attrs[i].1);
        }
        i += 1;
    }
    None
}

/// Decodes the raw record values of node `name`.
fn decode_records(name: &str, raws: &Vec<Vec<u8>>) -> (r: Vec<DnsRecord>)
    ensures
        r@.map_values(|x: DnsRecord| record_view(x)) == decoded_records(name@, raws.deep_view()),
{
    let mut out: Vec<DnsRecord> = Vec::new();
    let ghost rv = raws.deep_view();
    let mut i: usize = 0;
    while i < raws.len()
        invariant
            i <= raws@.len(),
            rv == raws.deep_view(),
            out@.map_values(|x: DnsRecord| record_view(x)) == decoded_records(
                name@,
                rv.take(i as int),
            ),
        decreases raws@.len() - i,
    {
        assert(rv.take(i + 1).drop_last() =~= rv.take(i as int));
        assert(rv.take(i + 1).last() == raws@[i as int]@);
        assert(raws@[i as int].deep_view() =~= raws@[i as int]@);
        let raw = raws[i].as_slice();
        let ghost before = out@.map_values(|x: DnsRecord| record_view(x));
        match parse_dns_record_binary(raw) {
            Some((t, v, ttl)) => {
                let rec = DnsRecord {
                    node_name: owned(name),
                    record_type: t,
                    value: v,
                    ttl,
                    raw_hex: to_hex(raw),
                };
                out.push(rec);
                assert(out@.map_values(|x: DnsRecord| record_view(x)) =~= before.push(
                    record_view(rec),
                ));
            },
            None => {},
        }
        i += 1;
    }
    assert(rv.take(i as int) =~= rv);
    out
}

/// The key nodes are listed by: the apex `@` first, then the others by
/// lower-case name.
pub open spec fn node_key(name: Seq<char>) -> Seq<char> {
    if name == "@"@ {
        seq!['0']
    } else {
        seq!['1'] + lowercase(name)
    }
}

fn node_key_chars(name: &str) -> (k: Vec<char>)
    ensures
        k@ == node_key(name@),
{
    let apex = owned("@");
    let mut k: Vec<char> = Vec::new();
    if owned(name) == apex {
        k.push('0');
        assert(k@ =~= seq!['0']);
    } else {
        k.push('1');
        let l = to_lowercase(name);
        let lc = chars_of(l.as_str());
        let mut i: usize = 0;
        while i < lc.len()
            invariant
                i <= lc@.len(),
                k@ == seq!['1'] + lc@.take(i as int),
            decreases lc@.len() - i,
        {
            k.push(lc[i]);
            i += 1;
            assert(k@ =~= seq!['1'] + lc@.take(i as int));
        }
        assert(lc@.take(i as int) =~= lc@);
    }
    k
}

impl SortKey for DnsNode {
    open spec fn sort_key(&self) -> Seq<char> {
        node_key(self.name@)
    }

    fn key_chars(&self) -> (k: Vec<char>) {
        node_key_chars(self.name.as_str())
    }
}

impl Listed for DnsNode {
    /// A node is listed when it has a name and holds record values.
    open spec fn shown(e: Entry, base: Seq<char>) -> bool {
        attr_spec(e, "dc"@).len() > 0 && raw_records(e).len() > 0
    }

    open spec fn entry_key(e: Entry, base: Seq<char>) -> Seq<char> {
        node_key(attr_spec(e, "dc"@))
    }

    open spec fn shows(self, e: Entry, base: Seq<char>) -> bool {
        &&& self.name@ == attr_spec(e, "dc"@)
        &&& self.records@.map_values(|x: DnsRecord| record_view(x)) == decoded_records(
            attr_spec(e, "dc"@),
            raw_records(e),
        )
    }

    fn read(e: &Entry, base: &str) -> (r: Option<Self>) {
        let name = attr(e, "dc");
        if name.as_str().is_empty() {
            return None;
        }
        let empty: Vec<Vec<u8>> = Vec::new();
        let raws = match bin_attr(e, "dnsRecord") {
            Some(v) => v,
            None => match bin_attr_ci(e, "dnsrecord") {
                Some(v) => v,
                None => &empty,
            },
        };
        assert(raws.deep_view() =~= raw_records(*e));
        let records = decode_records(name.as_str(), raws);
        if raws.len() == 0 {
            return None;
        }
        Some(DnsNode { name, records })
    }
}

/// The nodes of a zone, from a one-level search of the zone: named nodes
/// that hold records, the apex `@` first, then by lower-case name.
pub fn nodes_from_entries(entries: &Vec<Entry>) -> (r: Vec<DnsNode>)
    ensures
        listing(r@, entries@, Seq::empty()),
{
    proof {
        reveal_strlit("");
        assert(""@ =~= Seq::<char>::empty());
    }
    list_entries(entries, "")
}

// ── record changes ───────────────────────────────────────────────────────────

/// How a record is written: added to an existing node, or by creating the
/// node with it.
pub enum RecordWrite {
    AddToNode(Vec<Modification>),
    CreateNode(NewEntry),
}

/// The change that stores a record (its binary value) at node `node_name`
/// of the zone: a new value of the existing node, or a new node holding it.
pub fn plan_add_record(zone_dn: &str, node_name: &str, record: Vec<u8>, node_exists: bool) -> (r:
    RecordWrite)
    ensures
        match r {
            RecordWrite::AddToNode(m) => node_exists && mods_view(m@) == seq![
                (ModOp::Add, vstd::utf8::encode_utf8("dnsRecord"@), seq![record@]),
            ],
            RecordWrite::CreateNode(n) => !node_exists && n.dn@ == "DC="@ + node_name@ + ","@
                + zone_dn@ && attrs_view(n.attrs@) == seq![
                text_attr("objectClass"@, seq!["top"@, "dnsNode"@]),
                text_attr("dc"@, seq![node_name@]),
                (vstd::utf8::encode_utf8("dnsRecord"@), seq![record@]),
            ],
        },
        r matches RecordWrite::AddToNode(m) ==> mod_values_distinct(mods_view(m@)),
        r matches RecordWrite::CreateNode(n) ==> values_distinct(attrs_view(n.attrs@)),
{
    let ghost rv = record@;
    assert(record.deep_view() =~= record@);
    let mut values: Vec<Vec<u8>> = Vec::new();
    values.push(record);
    assert(values.deep_view() =~= seq![rv]);
    if node_exists {
        let m = Modification { op: ModOp::Add, attr: crate::encoding::sv("dnsRecord"), values };
        RecordWrite::AddToNode(single(m))
    } else {
        let classes = strings2("top", "dnsNode");
        proof {
            lemma_object_classes_distinct();
        }
        let mut attrs: Vec<(Vec<u8>, Vec<Vec<u8>>)> = Vec::new();
        attrs.push(attr_many("objectClass", &classes));
        attrs.push(attr_one("dc", node_name));
        attrs.push((crate::encoding::sv("dnsRecord"), values));
        assert(attrs_view(attrs@) =~= seq![
            text_attr("objectClass"@, seq!["top"@, "dnsNode"@]),
            text_attr("dc"@, seq![node_name@]),
            (vstd::utf8::encode_utf8("dnsRecord"@), seq![rv]),
        ]);
        RecordWrite::CreateNode(NewEntry { dn: node_dn(node_name, zone_dn), attrs })
    }
}

/// The change that deletes the record whose raw value is given in hex, or
/// the error for text that is not hex.
pub fn plan_delete_record(raw_hex: &str) -> (r: Result<Vec<Modification>, String>)
    requires
        raw_hex.spec_bytes().len() % 2 == 1 || crate::encoding::hex_slices_ok(raw_hex.spec_bytes()),
    ensures
        match r {
            Ok(m) => from_hex_spec(raw_hex.spec_bytes()) matches Some(b) && mods_view(m@) == seq![
                (ModOp::Delete, vstd::utf8::encode_utf8("dnsRecord"@), seq![b]),
            ],
            Err(e) => from_hex_spec(raw_hex.spec_bytes()) is None && e@ == "Invalid record data"@,
        },
        r matches Ok(m) ==> mod_values_distinct(mods_view(m@)),
{
    match from_hex(raw_hex) {
        None => Err(owned("Invalid record data")),
        Some(b) => {
            let ghost bv = b@;
            assert(b.deep_view() =~= b@);
            let mut values: Vec<Vec<u8>> = Vec::new();
            values.push(b);
            assert(values.deep_view() =~= seq![bv]);
            let m = Modification { op: ModOp::Delete, attr: crate::encoding::sv("dnsRecord"), values };
            Ok(single(m))
        },
    }
}

} // verus!
