use vstd::prelude::*;
use vstd::utf8::encode_utf8;
use crate::levels::Level;
use crate::time::Timestamp;

verus! {

/// Byte-wise lexicographic order, the order of `str`.
pub open spec fn bytes_lt(a: Seq<u8>, b: Seq<u8>) -> bool
    decreases a.len(),
{
    if a.len() == 0 {
        b.len() > 0
    } else if b.len() == 0 {
        false
    } else if a[0] != b[0] {
        a[0] < b[0]
    } else {
        bytes_lt(a.drop_first(), b.drop_first())
    }
}

/// Property names are ordered as their UTF-8 encodings are.
pub open spec fn name_lt(a: Seq<char>, b: Seq<char>) -> bool {
    bytes_lt(encode_utf8(a), encode_utf8(b))
}

/// No property has an empty name.
pub open spec fn names_nonempty(props: Seq<(Seq<char>, Seq<char>)>) -> bool {
    forall|i: int| 0 <= i < props.len() ==> #[trigger] props[i].0.len() > 0
}

/// Names strictly increase along the list, so each name occurs once.
pub open spec fn names_sorted(props: Seq<(Seq<char>, Seq<char>)>) -> bool {
    forall|i: int, j: int| 0 <= i < j < props.len() ==> name_lt(props[i].0, props[j].0)
}

pub proof fn lemma_bytes_lt_irreflexive(a: Seq<u8>)
    ensures
        !bytes_lt(a, a),
    decreases a.len(),
{
    if a.len() > 0 {
        lemma_bytes_lt_irreflexive(a.drop_first());
    }
}

pub proof fn lemma_bytes_lt_transitive(a: Seq<u8>, b: Seq<u8>, c: Seq<u8>)
    requires
        bytes_lt(a, b),
        bytes_lt(b, c),
    ensures
        bytes_lt(a, c),
    decreases a.len(),
{
    if a.len() > 0 && b.len() > 0 && c.len() > 0 && a[0] == b[0] && b[0] == c[0] {
        lemma_bytes_lt_transitive(a.drop_first(), b.drop_first(), c.drop_first());
    }
}

pub proof fn lemma_bytes_lt_total(a: Seq<u8>, b: Seq<u8>)
    requires
        a != b,
    ensures
        bytes_lt(a, b) || bytes_lt(b, a),
    decreases a.len(),
{
    if a.len() > 0 && b.len() > 0 && a[0] == b[0] {
        if a.drop_first() == b.drop_first() {
            assert(a =~= seq![a[0]] + a.drop_first());
            assert(b =~= seq![b[0]] + b.drop_first());
        }
        lemma_bytes_lt_total(a.drop_first(), b.drop_first());
    } else if a.len() == 0 && b.len() == 0 {
        assert(a =~= b);
    }
}

pub proof fn lemma_name_lt_total(a: Seq<char>, b: Seq<char>)
    requires
        a != b,
    ensures
        name_lt(a, b) || name_lt(b, a),
{
    broadcast use vstd::utf8::encode_utf8_decode_utf8;

    if encode_utf8(a) == encode_utf8(b) {
        assert(vstd::utf8::decode_utf8(encode_utf8(a)) == a);
        assert(vstd::utf8::decode_utf8(encode_utf8(b)) == b);
    }
    lemma_bytes_lt_total(encode_utf8(a), encode_utf8(b));
}

pub proof fn lemma_name_lt_irreflexive(a: Seq<char>)
    ensures
        !name_lt(a, a),
{
    lemma_bytes_lt_irreflexive(encode_utf8(a));
}

pub proof fn lemma_name_lt_transitive(a: Seq<char>, b: Seq<char>, c: Seq<char>)
    requires
        name_lt(a, b),
        name_lt(b, c),
    ensures
        name_lt(a, c),
{
    lemma_bytes_lt_transitive(encode_utf8(a), encode_utf8(b), encode_utf8(c));
}

/// The property list after setting `name` to `value`: a property of that name
/// has its value replaced, otherwise one is inserted where the order puts it.
pub open spec fn upsert(props: Seq<(Seq<char>, Seq<char>)>, name: Seq<char>, value: Seq<char>) -> Seq<
    (Seq<char>, Seq<char>),
>
    decreases props.len(),
{
    if props.len() == 0 {
        seq![(name, value)]
    } else if props[0].0 == name {
        props.update(0, (name, value))
    } else if name_lt(name, props[0].0) {
        seq![(name, value)] + props
    } else {
        seq![props[0]] + upsert(props.drop_first(), name, value)
    }
}

pub open spec fn has_name(props: Seq<(Seq<char>, Seq<char>)>, name: Seq<char>) -> bool {
    exists|i: int| 0 <= i < props.len() && props[i].0 == name
}

/// Where the first name not below `name` stands at `i`, `upsert` replaces the
/// property at `i` if it has that name, and inserts at `i` otherwise; the
/// result is sorted.
proof fn lemma_upsert_at(
    props: Seq<(Seq<char>, Seq<char>)>,
    name: Seq<char>,
    value: Seq<char>,
    i: int,
)
    requires
        names_sorted(props),
        0 <= i <= props.len(),
        forall|j: int| 0 <= j < i ==> name_lt(#[trigger] props[j].0, name),
        i < props.len() ==> !name_lt(props[i].0, name),
    ensures
        i < props.len() && props[i].0 == name ==> upsert(props, name, value) == props.update(
            i,
            (name, value),
        ),
        !(i < props.len() && props[i].0 == name) ==> upsert(props, name, value) == props.insert(
            i,
            (name, value),
        ),
        names_sorted(upsert(props, name, value)),
        has_name(props, name) <==> (i < props.len() && props[i].0 == name),
    decreases i,
{
    let r = upsert(props, name, value);
    if i < props.len() && props[i].0 != name {
        lemma_name_lt_total(props[i].0, name);
    }
    if i == 0 {
        if props.len() == 0 {
            assert(r =~= props.insert(0, (name, value)));
        } else if props[0].0 == name {
        } else {
            assert(r =~= props.insert(0, (name, value)));
        }
    } else {
        let rest = props.drop_first();
        assert forall|j: int| 0 <= j < i - 1 implies name_lt(#[trigger] rest[j].0, name) by {
            assert(rest[j] == props[j + 1]);
        }
        lemma_upsert_at(rest, name, value, i - 1);
        lemma_name_lt_irreflexive(name);
        if name_lt(name, props[0].0) {
            lemma_name_lt_transitive(name, props[0].0, name);
        }
        assert(props[0].0 != name);
        if i < props.len() && props[i].0 == name {
            assert(r =~= props.update(i, (name, value)));
        } else {
            assert(r =~= props.insert(i, (name, value)));
        }
    }
    if i < props.len() && props[i].0 == name {
        assert(r =~= props.update(i, (name, value)));
        assert forall|a: int, b: int| 0 <= a < b < r.len() implies name_lt(r[a].0, r[b].0) by {
            assert(r[a].0 == props[a].0 && r[b].0 == props[b].0);
        }
    } else {
        assert(r =~= props.insert(i, (name, value)));
        assert forall|a: int, b: int| 0 <= a < b < r.len() implies name_lt(r[a].0, r[b].0) by {
            if b < i {
            } else if b == i {
            } else if a < i {
                assert(name_lt(props[a].0, name));
                assert(name_lt(name, props[i].0));
                if b - 1 > i {
                    lemma_name_lt_transitive(name, props[i].0, props[b - 1].0);
                }
                lemma_name_lt_transitive(props[a].0, name, props[b - 1].0);
            } else if a == i {
                if b - 1 > i {
                    lemma_name_lt_transitive(name, props[i].0, props[b - 1].0);
                }
            } else {
            }
        }
    }
    if has_name(props, name) {
        let k = choose|k: int| 0 <= k < props.len() && props[k].0 == name;
        lemma_name_lt_irreflexive(name);
        if k < i {
        } else if k > i {
            lemma_name_lt_transitive(name, props[i].0, name);
        }
    }
}

/// The property list after setting each pair of `props` in turn.
pub open spec fn upsert_all(props: Seq<(Seq<char>, Seq<char>)>) -> Seq<(Seq<char>, Seq<char>)>
    decreases props.len(),
{
    if props.len() == 0 {
        Seq::empty()
    } else {
        upsert(upsert_all(props.drop_last()), props.last().0, props.last().1)
    }
}

/// Compares two names in the order of `str`.
pub fn name_less(a: &str, b: &str) -> (r: bool)
    ensures
        r == name_lt(a@, b@),
{
    let x = a.as_bytes();
    let y = b.as_bytes();
    let mut i: usize = 0;
    assert(x@.skip(0) =~= x@ && y@.skip(0) =~= y@);
    while i < x.len() && i < y.len() && x[i] == y[i]
        invariant
            x@ == encode_utf8(a@),
            y@ == encode_utf8(b@),
            i <= x.len(),
            i <= y.len(),
            bytes_lt(x@, y@) == bytes_lt(x@.skip(i as int), y@.skip(i as int)),
        decreases x.len() - i,
    {
        proof {
            let xs = x@.skip(i as int);
            let ys = y@.skip(i as int);
            assert(xs.drop_first() =~= x@.skip(i + 1));
            assert(ys.drop_first() =~= y@.skip(i + 1));
        }
        i = i + 1;
    }
    if i < x.len() && i < y.len() {
        x[i] < y[i]
    } else {
        i == x.len() && i < y.len()
    }
}

/// One captured log occurrence.
pub struct Event {
    timestamp: Timestamp,
    level: Level,
    message_template: String,
    properties: Vec<(String, String)>,
}

impl Event {
    pub closed spec fn spec_timestamp(&self) -> Timestamp {
        self.timestamp
    }

    pub closed spec fn spec_level(&self) -> Level {
        self.level
    }

    pub closed spec fn spec_template(&self) -> Seq<char> {
        self.message_template@
    }

    /// Name and value of each property, in name order.
    pub closed spec fn spec_properties(&self) -> Seq<(Seq<char>, Seq<char>)> {
        self.properties@.map_values(|p: (String, String)| (p.0@, p.1@))
    }

    pub open spec fn wf(&self) -> bool {
        self.spec_timestamp().wf() && names_sorted(self.spec_properties()) && names_nonempty(
            self.spec_properties(),
        )
    }

    /// An event of the given instant, level and template; properties that
    /// share a name keep the value that comes last.
    pub fn new(
        timestamp: Timestamp,
        level: Level,
        message_template: String,
        properties: Vec<(String, String)>,
    ) -> (r: Event)
        requires
            forall|i: int| 0 <= i < properties@.len() ==> #[trigger] properties@[i].0@.len() > 0,
        ensures
            r.wf(),
            r.spec_timestamp() == timestamp,
            r.spec_level() == level,
            r.spec_template() == message_template@,
            r.spec_properties() == upsert_all(
                properties@.map_values(|p: (String, String)| (p.0@, p.1@)),
            ),
    {
        proof {
            use_type_invariant(&timestamp);
        }
        let ghost input = properties@.map_values(|p: (String, String)| (p.0@, p.1@));
        let mut e = Event { timestamp, level, message_template, properties: Vec::new() };
        assert(e.spec_properties() =~= upsert_all(input.take(0)));
        let mut i: usize = 0;
        while i < properties.len()
            invariant
                i <= properties.len(),
                forall|j: int|
                    0 <= j < properties@.len() ==> #[trigger] properties@[j].0@.len() > 0,
                input == properties@.map_values(|p: (String, String)| (p.0@, p.1@)),
                e.wf(),
                e.spec_timestamp() == timestamp,
                e.spec_level() == level,
                e.spec_template() == message_template@,
                e.spec_properties() == upsert_all(input.take(i as int)),
            decreases properties.len() - i,
        {
            let name = properties[i].0.clone();
            let value = properties[i].1.clone();
            e.add_or_update_property(name, value);
            assert(input.take(i + 1).drop_last() =~= input.take(i as int));
            i = i + 1;
        }
        assert(input.take(i as int) =~= input);
        e
    }

    pub fn timestamp(&self) -> (r: Timestamp)
        ensures
            r == self.spec_timestamp(),
    {
        self.timestamp
    }

    pub fn level(&self) -> (r: Level)
        ensures
            r == self.spec_level(),
    {
        self.level
    }

    pub fn message_template(&self) -> (r: &String)
        ensures
            r@ == self.spec_template(),
    {
        &self.message_template
    }

    /// The properties as (name, JSON value) pairs, in name order.
    pub fn properties(&self) -> (r: &Vec<(String, String)>)
        ensures
            r@.map_values(|p: (String, String)| (p.0@, p.1@)) == self.spec_properties(),
    {
        &self.properties
    }

    /// The position of the first property whose name is not below `name`,
    /// and whether it has that name.
    fn find_slot(&self, name: &str) -> (r: (usize, bool))
        requires
            self.wf(),
        ensures
            r.0 <= self.spec_properties().len(),
            forall|j: int| 0 <= j < r.0 ==> name_lt(#[trigger] self.spec_properties()[j].0, name@),
            r.0 < self.spec_properties().len() ==> !name_lt(
                self.spec_properties()[r.0 as int].0,
                name@,
            ),
            r.1 == (r.0 < self.spec_properties().len() && self.spec_properties()[r.0 as int].0
                == name@),
    {
        let mut i: usize = 0;
        while i < self.properties.len() && name_less(self.properties[i].0.as_str(), name)
            invariant
                i <= self.properties.len(),
                forall|j: int|
                    0 <= j < i ==> name_lt(#[trigger] self.spec_properties()[j].0, name@),
            decreases self.properties.len() - i,
        {
            i = i + 1;
        }
        let found = i < self.properties.len() && !name_less(name, self.properties[i].0.as_str());
        proof {
            if i < self.properties.len() {
                let p = self.spec_properties()[i as int].0;
                if p != name@ {
                    lemma_name_lt_total(p, name@);
                } else {
                    lemma_name_lt_irreflexive(p);
                }
            }
        }
        (i, found)
    }

    /// Sets the property `name` to `value`, replacing any earlier value.
    pub fn add_or_update_property(&mut self, name: String, value: String)
        requires
            old(self).wf(),
            name@.len() > 0,
        ensures
            final(self).wf(),
            final(self).spec_timestamp() == old(self).spec_timestamp(),
            final(self).spec_level() == old(self).spec_level(),
            final(self).spec_template() == old(self).spec_template(),
            final(self).spec_properties() == upsert(old(self).spec_properties(), name@, value@),
    {
        let (i, found) = self.find_slot(name.as_str());
        proof {
            lemma_upsert_at(self.spec_properties(), name@, value@, i as int);
        }
        let ghost before = self.spec_properties();
        if found {
            self.properties.set(i, (name, value));
            assert(self.spec_properties() =~= before.update(i as int, (name@, value@)));
            assert(names_nonempty(self.spec_properties()));
        } else {
            self.properties.insert(i, (name, value));
            assert(self.spec_properties() =~= before.insert(i as int, (name@, value@)));
        }
    }

    /// Adds the property `name` unless one of that name is already there.
    pub fn add_property_if_absent(&mut self, name: String, value: String)
        requires
            old(self).wf(),
            name@.len() > 0,
        ensures
            final(self).wf(),
            final(self).spec_timestamp() == old(self).spec_timestamp(),
            final(self).spec_level() == old(self).spec_level(),
            final(self).spec_template() == old(self).spec_template(),
            has_name(old(self).spec_properties(), name@) ==> final(self).spec_properties() == old(
                self,
            ).spec_properties(),
            !has_name(old(self).spec_properties(), name@) ==> final(self).spec_properties()
                == upsert(old(self).spec_properties(), name@, value@),
    {
        let (i, found) = self.find_slot(name.as_str());
        proof {
            lemma_upsert_at(self.spec_properties(), name@, value@, i as int);
        }
        let ghost before = self.spec_properties();
        if !found {
            self.properties.insert(i, (name, value));
            assert(self.spec_properties() =~= before.insert(i as int, (name@, value@)));
            assert forall|j: int| 0 <= j < self.spec_properties().len() implies #[trigger] self.spec_properties()[j].0.len() > 0 by {
                if j > i {
                    assert(self.spec_properties()[j] == before[j - 1]);
                }
            }
        }
    }
}

} // verus!
