use vstd::prelude::*;
use vstd::utf8::is_ascii_chars;
use crate::assoc::{pairs_map, keys_unique, lemma_pairs_map_keys, lemma_pairs_map_at, lemma_pairs_map_update};
use crate::text::{
    ascii_uppercased, spaces_to_underscores, decimal, to_uppercase, replace_spaces,
    decimal_string, lemma_decimal_is_ascii, lemma_key_suffix_is_ascii,
};

verus! {

/// A map from property key to value with unique keys, kept in the order in
/// which keys were first inserted.
#[derive(Clone, Debug)]
pub struct PropertyMap {
    entries: Vec<(String, String)>,
}

impl PropertyMap {
    /// The entries as plain values, in order.
    pub closed spec fn pairs(&self) -> Seq<(Seq<char>, Seq<char>)> {
        self.entries.deep_view()
    }

    pub closed spec fn wf(&self) -> bool {
        keys_unique(self.pairs())
    }

    /// What the map holds.
    pub open spec fn view(&self) -> Map<Seq<char>, Seq<char>> {
        pairs_map(self.pairs())
    }

    pub fn new() -> (r: PropertyMap)
        ensures
            r.wf(),
            r@ == Map::<Seq<char>, Seq<char>>::empty(),
    {
        let r = PropertyMap { entries: Vec::new() };
        assert(r.pairs() =~= Seq::<(Seq<char>, Seq<char>)>::empty());
        r
    }

    /// Sets `key` to `value`, overwriting an earlier value of the same key.
    pub fn insert(&mut self, key: String, value: String)
        requires
            old(self).wf(),
        ensures
            final(self).wf(),
            final(self)@ == old(self)@.insert(key@, value@),
    {
        let ghost p0 = self.pairs();
        let ghost v0 = self@;
        let mut i: usize = 0;
        while i < self.entries.len()
            invariant
                self.pairs() == p0,
                v0 == pairs_map(p0),
                v0 == old(self)@,
                keys_unique(p0),
                i <= self.entries.len(),
                forall|j: int| 0 <= j < i ==> (#[trigger] p0[j]).0 != key@,
            decreases self.entries.len() - i,
        {
            if self.entries[i].0 == key {
                let ghost k = p0[i as int].0;
                self.entries.set(i, (key, value));
                proof {
                    assert(self.pairs() =~= p0.update(i as int, (k, value@)));
                    lemma_pairs_map_update(p0, i as int, value@);
                    assert(k == key@);
                    assert(self@ == pairs_map(p0).insert(key@, value@));
                    assert(self@ == v0.insert(key@, value@));
                    assert forall|a: int, b: int|
                        0 <= a < self.pairs().len() && 0 <= b < self.pairs().len() && a != b implies
                        #[trigger] self.pairs()[a].0 != #[trigger] self.pairs()[b].0 by {
                        assert(self.pairs()[a].0 == p0[a].0 && self.pairs()[b].0 == p0[b].0);
                    }
                }
                return;
            }
            i = i + 1;
        }
        self.entries.push((key, value));
        proof {
            let p = self.pairs();
            assert(p =~= p0.push((key@, value@)));
            assert(p.drop_last() =~= p0);
            assert forall|a: int, b: int|
                0 <= a < p.len() && 0 <= b < p.len() && a != b implies #[trigger] p[a].0
                != #[trigger] p[b].0 by {
                if a < p0.len() {
                    assert(p[a] == p0[a]);
                }
                if b < p0.len() {
                    assert(p[b] == p0[b]);
                }
            }
        }
    }

    /// The value of `key`, if it has one.
    pub fn get(&self, key: &str) -> (r: Option<String>)
        requires
            self.wf(),
        ensures
            r is Some <==> self@.contains_key(key@),
            r is Some ==> r->Some_0@ == self@[key@],
    {
        let k = key.to_owned();
        let mut i: usize = 0;
        while i < self.entries.len()
            invariant
                self.wf(),
                k@ == key@,
                i <= self.entries.len(),
                forall|j: int| 0 <= j < i ==> (#[trigger] self.pairs()[j]).0 != key@,
            decreases self.entries.len() - i,
        {
            if self.entries[i].0 == k {
                proof {
                    lemma_pairs_map_at(self.pairs(), i as int);
                }
                return Some(self.entries[i].1.clone());
            }
            i = i + 1;
        }
        proof {
            if self@.contains_key(key@) {
                lemma_pairs_map_keys(self.pairs(), key@);
            }
        }
        None
    }

    /// The entries as key/value pairs, each key once.
    pub fn to_pairs(&self) -> (r: Vec<(String, String)>)
        requires
            self.wf(),
        ensures
            r.deep_view() == self.pairs(),
            keys_unique(r.deep_view()),
            pairs_map(r.deep_view()) == self@,
    {
        let mut r: Vec<(String, String)> = Vec::new();
        let mut i: usize = 0;
        while i < self.entries.len()
            invariant
                i <= self.entries.len(),
                r.deep_view() =~= self.pairs().take(i as int),
            decreases self.entries.len() - i,
        {
            let k = self.entries[i].0.clone();
            let v = self.entries[i].1.clone();
            let ghost r0 = r.deep_view();
            r.push((k, v));
            proof {
                assert(r.deep_view() =~= r0.push(self.pairs()[i as int]));
                assert(self.pairs().take(i + 1) =~= self.pairs().take(i as int).push(self.pairs()[i as int]));
            }
            i = i + 1;
        }
        assert(self.pairs().take(i as int) =~= self.pairs());
        r
    }
}

/// A service as the browser resolved it, held as plain values.
#[derive(Clone, Debug)]
pub struct ServiceRecord {
    /// Fully qualified instance name: the record's key.
    pub fullname: String,
    pub hostname: String,
    pub port: u16,
    /// Addresses, each in its textual form, in the order the browser gave them.
    pub addresses: Vec<String>,
    /// TXT attributes as key/value pairs, in order.
    pub attributes: Vec<(String, String)>,
}

/// A device as published: its identifier and its properties.
#[derive(Clone, Debug)]
pub struct DeviceRecord {
    pub id: String,
    pub properties: PropertyMap,
}

pub open spec fn hostname_key() -> Seq<char> {
    "MDNS_HOSTNAME"@
}

pub open spec fn port_key() -> Seq<char> {
    "MDNS_PORT"@
}

pub open spec fn address_key_prefix() -> Seq<char> {
    "MDNS_IP_ADDRESS_"@
}

pub open spec fn attribute_key_prefix() -> Seq<char> {
    "MDNS_TXT_"@
}

/// Property key of the address at position `i`.
pub open spec fn address_key(i: nat) -> Seq<char> {
    address_key_prefix() + decimal(i)
}

/// Property key of an attribute: prefixed, upper-cased, spaces made underscores.
pub open spec fn attribute_key(key: Seq<char>) -> Seq<char> {
    attribute_key_prefix() + spaces_to_underscores(ascii_uppercased(key))
}

/// One property per address, keyed by its position.
pub open spec fn address_pairs(addresses: Seq<Seq<char>>) -> Seq<(Seq<char>, Seq<char>)> {
    Seq::new(addresses.len(), |i: int| (address_key(i as nat), addresses[i]))
}

/// One property per attribute whose key is ASCII; the others are left out.
pub open spec fn attribute_pairs(attributes: Seq<(Seq<char>, Seq<char>)>) -> Seq<
    (Seq<char>, Seq<char>),
>
    decreases attributes.len(),
{
    if attributes.len() == 0 {
        Seq::empty()
    } else {
        let rest = attribute_pairs(attributes.drop_last());
        let (k, v) = attributes.last();
        if is_ascii_chars(k) {
            rest.push((attribute_key(k), v))
        } else {
            rest
        }
    }
}

/// The properties of a record in insertion order: hostname, port, addresses,
/// then attributes.
pub open spec fn property_pairs(rec: ServiceRecord) -> Seq<(Seq<char>, Seq<char>)> {
    seq![(hostname_key(), rec.hostname@), (port_key(), decimal(rec.port as nat))]
        + address_pairs(rec.addresses.deep_view()) + attribute_pairs(rec.attributes.deep_view())
}

/// The property map of the device published for a record; a later property
/// overwrites an earlier one with the same key.
pub open spec fn device_properties(rec: ServiceRecord) -> Map<Seq<char>, Seq<char>> {
    pairs_map(property_pairs(rec))
}

fn prefixed(prefix: &str, rest: &str) -> (r: String)
    ensures
        r@ == prefix@ + rest@,
{
    let mut r = prefix.to_owned();
    r.append(rest);
    r
}

/// Translates a cached record into the device published for it, under the
/// identifier `instance`.
pub fn translate_record(instance: &String, rec: &ServiceRecord) -> (d: DeviceRecord)
    ensures
        d.id@ == instance@,
        d.properties.wf(),
        d.properties@ == device_properties(*rec),
{
    let ghost base = seq![(hostname_key(), rec.hostname@), (port_key(), decimal(rec.port as nat))];
    let ghost addrs = rec.addresses.deep_view();
    let ghost attrs = rec.attributes.deep_view();
    let mut props = PropertyMap::new();
    props.insert("MDNS_HOSTNAME".to_owned(), rec.hostname.clone());
    props.insert("MDNS_PORT".to_owned(), decimal_string(rec.port as u64));
    proof {
        assert(seq![(hostname_key(), rec.hostname@)].drop_last() =~= Seq::<(Seq<char>, Seq<char>)>::empty());
        assert(base.drop_last() =~= seq![(hostname_key(), rec.hostname@)]);
        assert(base + address_pairs(addrs.take(0)) =~= base);
        assert(pairs_map(seq![(hostname_key(), rec.hostname@)]) == pairs_map(
            Seq::<(Seq<char>, Seq<char>)>::empty(),
        ).insert(hostname_key(), rec.hostname@));
        assert(pairs_map(base) == pairs_map(seq![(hostname_key(), rec.hostname@)]).insert(
            port_key(),
            decimal(rec.port as nat),
        ));
    }
    let mut i: usize = 0;
    while i < rec.addresses.len()
        invariant
            props.wf(),
            addrs == rec.addresses.deep_view(),
            i <= rec.addresses.len(),
            props@ == pairs_map(base + address_pairs(addrs.take(i as int))),
        decreases rec.addresses.len() - i,
    {
        let key = prefixed("MDNS_IP_ADDRESS_", decimal_string(i as u64).as_str());
        props.insert(key, rec.addresses[i].clone());
        proof {
            let next = base + address_pairs(addrs.take(i + 1));
            assert(next =~= (base + address_pairs(addrs.take(i as int))).push(
                (address_key(i as nat), addrs[i as int]),
            ));
            assert(next.drop_last() =~= base + address_pairs(addrs.take(i as int)));
        }
        i = i + 1;
    }
    proof {
        assert(addrs.take(i as int) =~= addrs);
        assert(base + address_pairs(addrs) + attribute_pairs(attrs.take(0)) =~= base
            + address_pairs(addrs));
    }
    let mut j: usize = 0;
    while j < rec.attributes.len()
        invariant
            props.wf(),
            attrs == rec.attributes.deep_view(),
            j <= rec.attributes.len(),
            props@ == pairs_map(base + address_pairs(addrs) + attribute_pairs(attrs.take(j as int))),
        decreases rec.attributes.len() - j,
    {
        let ghost before = base + address_pairs(addrs) + attribute_pairs(attrs.take(j as int));
        proof {
            assert(attrs.take(j + 1).drop_last() =~= attrs.take(j as int));
        }
        let key = &rec.attributes[j].0;
        if key.as_str().is_ascii() {
            let upper = to_uppercase(key.as_str());
            let suffix = replace_spaces(upper.as_str());
            let full = prefixed("MDNS_TXT_", suffix.as_str());
            props.insert(full, rec.attributes[j].1.clone());
            proof {
                let next = base + address_pairs(addrs) + attribute_pairs(attrs.take(j + 1));
                assert(next =~= before.push((attribute_key(attrs[j as int].0), attrs[j as int].1)));
                assert(next.drop_last() =~= before);
            }
        } else {
            proof {
                assert(base + address_pairs(addrs) + attribute_pairs(attrs.take(j + 1)) =~= before);
            }
        }
        j = j + 1;
    }
    proof {
        assert(attrs.take(j as int) =~= attrs);
    }
    DeviceRecord { id: instance.clone(), properties: props }
}

proof fn lemma_concat_ascii(a: Seq<char>, b: Seq<char>)
    requires
        is_ascii_chars(a),
        is_ascii_chars(b),
    ensures
        is_ascii_chars(a + b),
{
    assert forall|i: int| 0 <= i < (a + b).len() implies '\0' <= #[trigger] (a + b)[i] <= '\u{7f}' by {
        if i < a.len() {
            assert((a + b)[i] == a[i]);
        } else {
            assert((a + b)[i] == b[i - a.len()]);
        }
    }
}

proof fn lemma_fixed_keys_ascii()
    ensures
        is_ascii_chars(hostname_key()),
        is_ascii_chars(port_key()),
        is_ascii_chars(address_key_prefix()),
        is_ascii_chars(attribute_key_prefix()),
{
    reveal_strlit("MDNS_HOSTNAME");
    reveal_strlit("MDNS_PORT");
    reveal_strlit("MDNS_IP_ADDRESS_");
    reveal_strlit("MDNS_TXT_");
}

proof fn lemma_attribute_pair_keys(attrs: Seq<(Seq<char>, Seq<char>)>, j: int)
    requires
        0 <= j < attribute_pairs(attrs).len(),
    ensures
        is_ascii_chars(attribute_pairs(attrs)[j].0),
    decreases attrs.len(),
{
    let rest = attribute_pairs(attrs.drop_last());
    let (k, v) = attrs.last();
    if j < rest.len() {
        lemma_attribute_pair_keys(attrs.drop_last(), j);
        if is_ascii_chars(k) {
            assert(attribute_pairs(attrs)[j] == rest[j]);
        }
    } else {
        lemma_fixed_keys_ascii();
        lemma_key_suffix_is_ascii(k);
        lemma_concat_ascii(
            attribute_key_prefix(),
            spaces_to_underscores(ascii_uppercased(k)),
        );
    }
}

/// Every key of a published property map is ASCII text, so an attribute
/// whose key is not ASCII contributes no property: neither its key nor its
/// prefixed form is ever a key of the map.
pub proof fn non_ascii_attribute_keys_never_appear(rec: ServiceRecord)
    ensures
        forall|k: Seq<char>| #[trigger] device_properties(rec).contains_key(k) ==> is_ascii_chars(k),
        forall|i: int|
            0 <= i < rec.attributes@.len() && !is_ascii_chars(
                #[trigger] rec.attributes.deep_view()[i].0,
            ) ==> {
                &&& !device_properties(rec).contains_key(rec.attributes.deep_view()[i].0)
                &&& !device_properties(rec).contains_key(
                    attribute_key(rec.attributes.deep_view()[i].0),
                )
            },
{
    let pairs = property_pairs(rec);
    let base = seq![(hostname_key(), rec.hostname@), (port_key(), decimal(rec.port as nat))];
    let addrs = address_pairs(rec.addresses.deep_view());
    let attrs = attribute_pairs(rec.attributes.deep_view());
    assert forall|k: Seq<char>| #[trigger] device_properties(rec).contains_key(k) implies is_ascii_chars(k) by {
        lemma_pairs_map_keys(pairs, k);
        let j = choose|j: int| 0 <= j < pairs.len() && (#[trigger] pairs[j]).0 == k;
        lemma_fixed_keys_ascii();
        if j < 2 {
            assert(pairs[j] == base[j]);
        } else if j < 2 + addrs.len() {
            assert(pairs[j] == addrs[j - 2]);
            lemma_decimal_is_ascii((j - 2) as nat);
            lemma_concat_ascii(address_key_prefix(), decimal((j - 2) as nat));
        } else {
            assert(pairs[j] == attrs[j - 2 - addrs.len()]);
            lemma_attribute_pair_keys(rec.attributes.deep_view(), j - 2 - addrs.len());
        }
    }
    assert forall|i: int|
        0 <= i < rec.attributes@.len() && !is_ascii_chars(
            #[trigger] rec.attributes.deep_view()[i].0,
        ) implies {
        &&& !device_properties(rec).contains_key(rec.attributes.deep_view()[i].0)
        &&& !device_properties(rec).contains_key(attribute_key(rec.attributes.deep_view()[i].0))
    } by {
        let k = rec.attributes.deep_view()[i].0;
        let c_at = choose|c: int| 0 <= c < k.len() && !('\0' <= #[trigger] k[c] <= '\u{7f}');
        let full = attribute_key(k);
        let suffix = spaces_to_underscores(ascii_uppercased(k));
        assert(suffix[c_at] == k[c_at]);
        assert(full[attribute_key_prefix().len() + c_at] == k[c_at]);
        assert(!is_ascii_chars(full));
    }
}

/// The properties of a device depend only on the record's hostname, port,
/// addresses and attributes, as values: translating equal records gives
/// identical property maps.
pub proof fn translation_is_deterministic(a: ServiceRecord, b: ServiceRecord)
    requires
        a.hostname@ == b.hostname@,
        a.port == b.port,
        a.addresses.deep_view() == b.addresses.deep_view(),
        a.attributes.deep_view() == b.attributes.deep_view(),
    ensures
        device_properties(a) == device_properties(b),
{
    assert(property_pairs(a) == property_pairs(b));
}

} // verus!
