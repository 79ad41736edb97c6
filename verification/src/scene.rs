//! The declarative scene: keyed nodes, their kinds and their typed properties.
use vstd::prelude::*;
use crate::text::{chars_lt, chars_of, seq_lt};

verus! {

/// Stable identity of a node across frames (an opaque byte string).
#[derive(Debug, Clone, PartialEq, Eq, Hash)]
pub struct SceneKey {
    pub id: Vec<u8>,
}

impl View for SceneKey {
    type V = Seq<u8>;

    open spec fn view(&self) -> Seq<u8> {
        self.id@
    }
}

pub fn bytes_eq(a: &[u8], b: &[u8]) -> (r: bool)
    ensures
        r == (a@ == b@),
{
    if a.len() != b.len() {
        return false;
    }
    let mut i: usize = 0;
    while i < a.len()
        invariant
            i <= a.len(),
            a.len() == b.len(),
            forall|j: int| 0 <= j < i ==> a@[j] == b@[j],
        decreases a.len() - i,
    {
        if a[i] != b[i] {
            return false;
        }
        i = i + 1;
    }
    assert(a@ =~= b@);
    true
}

pub fn copy_vec<T: Copy>(a: &Vec<T>) -> (r: Vec<T>)
    ensures
        r@ == a@,
{
    let mut r: Vec<T> = Vec::new();
    let mut i: usize = 0;
    while i < a.len()
        invariant
            i <= a.len(),
            r@ == a@.take(i as int),
        decreases a.len() - i,
    {
        r.push(a[i]);
        i = i + 1;
        assert(r@ =~= a@.take(i as int));
    }
    assert(a@.take(a.len() as int) =~= a@);
    r
}

impl SceneKey {
    /// Whether two keys name the same node.
    pub fn same_as(&self, other: &SceneKey) -> (r: bool)
        ensures
            r == (self@ == other@),
    {
        bytes_eq(self.id.as_slice(), other.id.as_slice())
    }

    /// A copy of this key.
    pub fn duplicate(&self) -> (r: SceneKey)
        ensures
            r@ == self@,
    {
        SceneKey { id: copy_vec(&self.id) }
    }
}

/// The semantic kind of a node.
#[derive(Debug, Clone, PartialEq)]
pub enum NodeKind {
    Container {},
    Text {},
    Button {},
    TextInput {},
    Image {},
    Custom { name: String },
}

/// Model of a node kind.
pub enum KindView {
    Container,
    Text,
    Button,
    TextInput,
    Image,
    Custom(Seq<char>),
}

impl View for NodeKind {
    type V = KindView;

    open spec fn view(&self) -> KindView {
        match self {
            NodeKind::Container {} => KindView::Container,
            NodeKind::Text {} => KindView::Text,
            NodeKind::Button {} => KindView::Button,
            NodeKind::TextInput {} => KindView::TextInput,
            NodeKind::Image {} => KindView::Image,
            NodeKind::Custom { name } => KindView::Custom(name@),
        }
    }
}

impl NodeKind {
    /// Whether two kinds are the same.
    pub fn same_as(&self, other: &NodeKind) -> (r: bool)
        ensures
            r == (self@ == other@),
    {
        match (self, other) {
            (NodeKind::Container {}, NodeKind::Container {}) => true,
            (NodeKind::Text {}, NodeKind::Text {}) => true,
            (NodeKind::Button {}, NodeKind::Button {}) => true,
            (NodeKind::TextInput {}, NodeKind::TextInput {}) => true,
            (NodeKind::Image {}, NodeKind::Image {}) => true,
            (NodeKind::Custom { name: a }, NodeKind::Custom { name: b }) => *a == *b,
            _ => false,
        }
    }

    /// A copy of this kind.
    pub fn duplicate(&self) -> (r: NodeKind)
        ensures
            r@ == self@,
    {
        match self {
            NodeKind::Container {} => NodeKind::Container {},
            NodeKind::Text {} => NodeKind::Text {},
            NodeKind::Button {} => NodeKind::Button {},
            NodeKind::TextInput {} => NodeKind::TextInput {},
            NodeKind::Image {} => NodeKind::Image {},
            NodeKind::Custom { name } => NodeKind::Custom { name: name.clone() },
        }
    }
}

/// A typed property value. Floating-point quantities are carried as their
/// IEEE-754 bit patterns (`f64::to_bits` for numbers, `f32::to_bits` for
/// colour and vector components) and compared with IEEE equality.
#[derive(Debug, Clone, PartialEq)]
pub enum PropertyValue {
    String { value: String },
    Number { value: u64 },
    Boolean { value: bool },
    Color { values: Vec<u32> },
    Vec2 { values: Vec<u32> },
}

/// Model of a property value.
pub enum ValueView {
    Str(Seq<char>),
    Number(u64),
    Boolean(bool),
    Color(Seq<u32>),
    Vec2(Seq<u32>),
}

impl View for PropertyValue {
    type V = ValueView;

    open spec fn view(&self) -> ValueView {
        match self {
            PropertyValue::String { value } => ValueView::Str(value@),
            PropertyValue::Number { value } => ValueView::Number(*value),
            PropertyValue::Boolean { value } => ValueView::Boolean(*value),
            PropertyValue::Color { values } => ValueView::Color(values@),
            PropertyValue::Vec2 { values } => ValueView::Vec2(values@),
        }
    }
}

/// `f64` NaN, on the bit pattern.
pub open spec fn f64_is_nan(b: u64) -> bool {
    (b & 0x7ff0_0000_0000_0000u64) == 0x7ff0_0000_0000_0000u64 && (b & 0x000f_ffff_ffff_ffffu64)
        != 0
}

/// IEEE-754 equality of two `f64` given by their bit patterns: NaN equals
/// nothing, and the two zeros are equal.
pub open spec fn f64_eq(a: u64, b: u64) -> bool {
    !f64_is_nan(a) && !f64_is_nan(b) && (a == b || (a | b) & 0x7fff_ffff_ffff_ffffu64 == 0)
}

/// `f32` NaN, on the bit pattern.
pub open spec fn f32_is_nan(b: u32) -> bool {
    (b & 0x7f80_0000u32) == 0x7f80_0000u32 && (b & 0x007f_ffffu32) != 0
}

/// IEEE-754 equality of two `f32` given by their bit patterns.
pub open spec fn f32_eq(a: u32, b: u32) -> bool {
    !f32_is_nan(a) && !f32_is_nan(b) && (a == b || (a | b) & 0x7fff_ffffu32 == 0)
}

/// Component-wise IEEE equality of two `f32` vectors of the same length.
pub open spec fn f32s_eq(a: Seq<u32>, b: Seq<u32>) -> bool {
    a.len() == b.len() && forall|i: int| 0 <= i < a.len() ==> f32_eq(#[trigger] a[i], b[i])
}

/// Equality of property values as `==` on the values they stand for.
pub open spec fn value_eq(a: ValueView, b: ValueView) -> bool {
    match (a, b) {
        (ValueView::Str(x), ValueView::Str(y)) => x == y,
        (ValueView::Number(x), ValueView::Number(y)) => f64_eq(x, y),
        (ValueView::Boolean(x), ValueView::Boolean(y)) => x == y,
        (ValueView::Color(x), ValueView::Color(y)) => f32s_eq(x, y),
        (ValueView::Vec2(x), ValueView::Vec2(y)) => f32s_eq(x, y),
        _ => false,
    }
}

/// A value holds no NaN.
pub open spec fn value_nan_free(a: ValueView) -> bool {
    match a {
        ValueView::Number(x) => !f64_is_nan(x),
        ValueView::Color(x) => forall|i: int| 0 <= i < x.len() ==> !f32_is_nan(#[trigger] x[i]),
        ValueView::Vec2(x) => forall|i: int| 0 <= i < x.len() ==> !f32_is_nan(#[trigger] x[i]),
        _ => true,
    }
}

/// An `f64` bit pattern that is neither a NaN nor the negative zero.
pub open spec fn f64_plain(b: u64) -> bool {
    !f64_is_nan(b) && b != 0x8000_0000_0000_0000u64
}

/// An `f32` bit pattern that is neither a NaN nor the negative zero.
pub open spec fn f32_plain(b: u32) -> bool {
    !f32_is_nan(b) && b != 0x8000_0000u32
}

/// A value whose floating-point parts are all plain: each number in it has
/// just the one bit pattern.
pub open spec fn value_plain(a: ValueView) -> bool {
    match a {
        ValueView::Number(x) => f64_plain(x),
        ValueView::Color(x) => forall|i: int| 0 <= i < x.len() ==> f32_plain(#[trigger] x[i]),
        ValueView::Vec2(x) => forall|i: int| 0 <= i < x.len() ==> f32_plain(#[trigger] x[i]),
        _ => true,
    }
}

proof fn lemma_f64_plain_eq(x: u64, y: u64)
    requires
        f64_plain(x),
        f64_plain(y),
    ensures
        f64_eq(x, y) <==> x == y,
{
    assert(((x | y) & 0x7fff_ffff_ffff_ffffu64 == 0) ==> x == y) by (bit_vector)
        requires
            x != 0x8000_0000_0000_0000u64,
            y != 0x8000_0000_0000_0000u64,
    ;
}

proof fn lemma_f32_plain_eq(x: u32, y: u32)
    requires
        f32_plain(x),
        f32_plain(y),
    ensures
        f32_eq(x, y) <==> x == y,
{
    assert(((x | y) & 0x7fff_ffffu32 == 0) ==> x == y) by (bit_vector)
        requires
            x != 0x8000_0000u32,
            y != 0x8000_0000u32,
    ;
}

proof fn lemma_f32s_plain_eq(x: Seq<u32>, y: Seq<u32>)
    requires
        forall|i: int| 0 <= i < x.len() ==> f32_plain(#[trigger] x[i]),
        forall|i: int| 0 <= i < y.len() ==> f32_plain(#[trigger] y[i]),
    ensures
        f32s_eq(x, y) <==> x == y,
{
    if f32s_eq(x, y) {
        assert forall|i: int| 0 <= i < x.len() implies x[i] == y[i] by {
            lemma_f32_plain_eq(x[i], y[i]);
        }
        assert(x =~= y);
    }
    if x == y {
        assert forall|i: int| 0 <= i < x.len() implies f32_eq(#[trigger] x[i], y[i]) by {
            lemma_f32_plain_eq(x[i], y[i]);
        }
    }
}

/// On values with no NaN and no negative zero, `==` on property values is
/// plain equality: the same variant holding the same contents, every
/// component of a colour or vector included.
pub proof fn law_value_equality_on_plain_values(a: ValueView, b: ValueView)
    requires
        value_plain(a),
        value_plain(b),
    ensures
        value_eq(a, b) <==> a == b,
{
    match (a, b) {
        (ValueView::Number(x), ValueView::Number(y)) => {
            lemma_f64_plain_eq(x, y);
        },
        (ValueView::Color(x), ValueView::Color(y)) => {
            lemma_f32s_plain_eq(x, y);
        },
        (ValueView::Vec2(x), ValueView::Vec2(y)) => {
            lemma_f32s_plain_eq(x, y);
        },
        _ => {},
    }
}

pub fn f64_bits_eq(a: u64, b: u64) -> (r: bool)
    ensures
        r == f64_eq(a, b),
{
    let a_nan = (a & 0x7ff0_0000_0000_0000u64) == 0x7ff0_0000_0000_0000u64 && (a
        & 0x000f_ffff_ffff_ffffu64) != 0;
    let b_nan = (b & 0x7ff0_0000_0000_0000u64) == 0x7ff0_0000_0000_0000u64 && (b
        & 0x000f_ffff_ffff_ffffu64) != 0;
    !a_nan && !b_nan && (a == b || (a | b) & 0x7fff_ffff_ffff_ffffu64 == 0)
}

pub fn f32_bits_eq(a: u32, b: u32) -> (r: bool)
    ensures
        r == f32_eq(a, b),
{
    let a_nan = (a & 0x7f80_0000u32) == 0x7f80_0000u32 && (a & 0x007f_ffffu32) != 0;
    let b_nan = (b & 0x7f80_0000u32) == 0x7f80_0000u32 && (b & 0x007f_ffffu32) != 0;
    !a_nan && !b_nan && (a == b || (a | b) & 0x7fff_ffffu32 == 0)
}

pub fn f32s_bits_eq(a: &Vec<u32>, b: &Vec<u32>) -> (r: bool)
    ensures
        r == f32s_eq(a@, b@),
{
    if a.len() != b.len() {
        return false;
    }
    let mut i: usize = 0;
    while i < a.len()
        invariant
            i <= a.len(),
            a.len() == b.len(),
            forall|j: int| 0 <= j < i ==> f32_eq(#[trigger] a@[j], b@[j]),
        decreases a.len() - i,
    {
        if !f32_bits_eq(a[i], b[i]) {
            return false;
        }
        i = i + 1;
    }
    true
}

impl PropertyValue {
    /// `==` on the values: IEEE equality on the floating-point parts.
    pub fn equals(&self, other: &PropertyValue) -> (r: bool)
        ensures
            r == value_eq(self@, other@),
    {
        match (self, other) {
            (PropertyValue::String { value: a }, PropertyValue::String { value: b }) => *a == *b,
            (PropertyValue::Number { value: a }, PropertyValue::Number { value: b }) => f64_bits_eq(*a, *b),
            (PropertyValue::Boolean { value: a }, PropertyValue::Boolean { value: b }) => *a == *b,
            (PropertyValue::Color { values: a }, PropertyValue::Color { values: b }) => f32s_bits_eq(a, b),
            (PropertyValue::Vec2 { values: a }, PropertyValue::Vec2 { values: b }) => f32s_bits_eq(a, b),
            _ => false,
        }
    }

    /// A copy of this value.
    pub fn duplicate(&self) -> (r: PropertyValue)
        ensures
            r@ == self@,
    {
        match self {
            PropertyValue::String { value } => PropertyValue::String { value: value.clone() },
            PropertyValue::Number { value } => PropertyValue::Number { value: *value },
            PropertyValue::Boolean { value } => PropertyValue::Boolean { value: *value },
            PropertyValue::Color { values } => PropertyValue::Color { values: copy_vec(values) },
            PropertyValue::Vec2 { values } => PropertyValue::Vec2 { values: copy_vec(values) },
        }
    }
}


/// Model of one property entry: its name and value.
pub type EntryView = (Seq<char>, ValueView);

/// Entries whose names strictly increase; so no name occurs twice.
pub open spec fn entries_sorted(es: Seq<EntryView>) -> bool {
    forall|i: int, j: int| 0 <= i < j < es.len() ==> seq_lt(#[trigger] es[i].0, #[trigger] es[j].0)
}

/// Some entry has the name `k`.
pub open spec fn entries_has(es: Seq<EntryView>, k: Seq<char>) -> bool {
    exists|i: int| 0 <= i < es.len() && #[trigger] es[i].0 == k
}

/// The name-to-value map that a list of entries stands for.
pub open spec fn entries_map(es: Seq<EntryView>) -> Map<Seq<char>, ValueView> {
    Map::new(
        |k: Seq<char>| entries_has(es, k),
        |k: Seq<char>| es[entries_index(es, k)].1,
    )
}

/// A position whose entry has the name `k`, if any has it.
pub open spec fn entries_index(es: Seq<EntryView>, k: Seq<char>) -> int {
    choose|i: int| 0 <= i < es.len() && #[trigger] es[i].0 == k
}

pub proof fn lemma_entries_map_at(es: Seq<EntryView>, i: int)
    requires
        entries_sorted(es),
        0 <= i < es.len(),
    ensures
        entries_map(es).contains_key(es[i].0),
        entries_map(es)[es[i].0] == es[i].1,
{
    let k = es[i].0;
    assert(entries_has(es, k));
    let j = entries_index(es, k);
    assert(entries_map(es)[k] == es[j].1);
    if j != i {
        crate::text::lemma_seq_lt_irreflexive(k);
        if j < i {
            assert(seq_lt(es[j].0, es[i].0));
        } else {
            assert(seq_lt(es[i].0, es[j].0));
        }
    }
}

/// A property map: entries kept in increasing order of name, so that two maps
/// with the same contents have the same entries.
#[derive(Debug, Clone, PartialEq, Default)]
pub struct PropertyMap {
    pub properties: Vec<(String, PropertyValue)>,
}

pub open spec fn entry_view(e: (String, PropertyValue)) -> EntryView {
    (e.0@, e.1@)
}

impl PropertyMap {
    /// The entries, in order.
    pub open spec fn entries(&self) -> Seq<EntryView> {
        self.properties@.map_values(|e: (String, PropertyValue)| entry_view(e))
    }

    /// Well-formed: the entries are in strictly increasing order of name.
    pub open spec fn wf(&self) -> bool {
        entries_sorted(self.entries())
    }
}

impl View for PropertyMap {
    type V = Map<Seq<char>, ValueView>;

    open spec fn view(&self) -> Map<Seq<char>, ValueView> {
        entries_map(self.entries())
    }
}

impl PropertyMap {
    /// An empty map.
    pub fn new() -> (r: PropertyMap)
        ensures
            r.wf(),
            r@ == Map::<Seq<char>, ValueView>::empty(),
            r.entries().len() == 0,
    {
        let r = PropertyMap { properties: Vec::new() };
        assert(r.entries() =~= Seq::<EntryView>::empty());
        assert(r@ =~= Map::<Seq<char>, ValueView>::empty());
        r
    }

    /// The position of the first entry named `key`, if there is one.
    pub fn find(&self, key: &[char]) -> (r: Option<usize>)
        ensures
            match r {
                Some(i) => i < self.entries().len() && self.entries()[i as int].0 == key@
                    && entries_lookup(self.entries(), key@) == Some(self.entries()[i as int].1),
                None => entries_lookup(self.entries(), key@) is None,
            },
    {
        let ghost es = self.entries();
        let mut i: usize = 0;
        while i < self.properties.len()
            invariant
                i <= self.properties.len(),
                es == self.entries(),
                forall|j: int| 0 <= j < i ==> es[j].0 != key@,
            decreases self.properties.len() - i,
        {
            let name = chars_of(self.properties[i].0.as_str());
            if crate::text::chars_eq(name.as_slice(), key) {
                proof {
                    assert(es[i as int].0 == self.properties@[i as int].0@);
                    lemma_entries_lookup_first(es, key@, i as int);
                }
                return Some(i);
            }
            assert(es[i as int].0 == self.properties@[i as int].0@);
            i = i + 1;
        }
        proof {
            lemma_entries_lookup_first(es, key@, i as int);
        }
        None
    }

    /// The value of the property `key`, if it is set.
    pub fn get(&self, key: String) -> (r: Option<PropertyValue>)
        ensures
            match r {
                Some(v) => entries_lookup(self.entries(), key@) == Some(v@),
                None => entries_lookup(self.entries(), key@) is None,
            },
            self.wf() ==> match r {
                Some(v) => self@.contains_key(key@) && v@ == self@[key@],
                None => !self@.contains_key(key@),
            },
    {
        let k = chars_of(key.as_str());
        proof {
            if self.wf() {
                lemma_entries_lookup_map(self.entries(), key@);
            }
        }
        match self.find(k.as_slice()) {
            Some(i) => Some(self.properties[i].1.duplicate()),
            None => None,
        }
    }

    /// Sets the property `key` to `value`, replacing what it held.
    pub fn set(&mut self, key: String, value: PropertyValue)
        ensures
            final(self).entries() == entries_set(old(self).entries(), key@, value@),
            old(self).wf() ==> final(self).wf(),
            old(self).wf() ==> final(self)@ == old(self)@.insert(key@, value@),
    {
        let ghost es = self.entries();
        let k = chars_of(key.as_str());
        let mut i: usize = 0;
        while i < self.properties.len()
            invariant
                i <= self.properties.len(),
                self.entries() == es,
                forall|j: int| 0 <= j < i ==> seq_lt(#[trigger] es[j].0, k@),
            ensures
                i <= self.properties.len(),
                self.entries() == es,
                forall|j: int| 0 <= j < i ==> seq_lt(#[trigger] es[j].0, k@),
                i < self.properties.len() ==> !seq_lt(es[i as int].0, k@),
            decreases self.properties.len() - i,
        {
            let name = chars_of(self.properties[i].0.as_str());
            assert(es[i as int].0 == self.properties@[i as int].0@);
            if !chars_lt(name.as_slice(), k.as_slice()) {
                break;
            }
            i = i + 1;
        }
        let ghost kv = key@;
        let ghost vv = value@;
        let mut replace = false;
        if i < self.properties.len() {
            let name = chars_of(self.properties[i].0.as_str());
            replace = crate::text::chars_eq(name.as_slice(), k.as_slice());
            assert(es[i as int].0 == self.properties@[i as int].0@);
        }
        assert(replace ==> i < es.len() && es[i as int].0 == kv);
        proof {
            lemma_entries_set_at(es, kv, vv, i as int);
        }
        if replace {
            self.properties.set(i, (key, value));
            assert(self.entries() =~= es.update(i as int, (kv, vv)));
            proof {
                if entries_sorted(es) {
                    lemma_entries_update_sorted(es, i as int, kv, vv);
                }
            }
        } else {
            proof {
                if i < es.len() {
                    crate::text::lemma_seq_lt_total(es[i as int].0, kv);
                }
            }
            self.properties.insert(i, (key, value));
            assert(self.entries() =~= es.insert(i as int, (kv, vv)));
            proof {
                if entries_sorted(es) {
                    lemma_entries_insert_sorted(es, i as int, kv, vv);
                }
            }
        }
    }
}

proof fn lemma_entries_update_sorted(es: Seq<EntryView>, i: int, kv: Seq<char>, vv: ValueView)
    requires
        entries_sorted(es),
        0 <= i < es.len(),
        es[i].0 == kv,
    ensures
        entries_sorted(es.update(i, (kv, vv))),
        entries_map(es.update(i, (kv, vv))) == entries_map(es).insert(kv, vv),
{
    let ns = es.update(i, (kv, vv));
                assert(entries_sorted(ns));
                assert forall|n: Seq<char>| #[trigger] entries_has(ns, n) == (entries_has(es, n) || n == kv) by {
                    if entries_has(es, n) {
                        let j = choose|j: int| 0 <= j < es.len() && #[trigger] es[j].0 == n;
                        assert(ns[j].0 == n);
                    }
                    if entries_has(ns, n) {
                        let j = choose|j: int| 0 <= j < ns.len() && #[trigger] ns[j].0 == n;
                        assert(es[j].0 == n);
                    }
                    assert(ns[i].0 == kv);
                }
                assert forall|n: Seq<char>| entries_map(ns).contains_key(n) implies entries_map(ns)[n] == map_after_insert(es, kv, vv, n) by {
                    let j = entries_index(ns, n);
                    lemma_entries_map_at(ns, j);
                    if j != i && n == kv {
                        crate::text::lemma_seq_lt_irreflexive(kv);
                        if j < i {
                            assert(seq_lt(ns[j].0, ns[i].0));
                        } else {
                            assert(seq_lt(ns[i].0, ns[j].0));
                        }
                    }
                    if n != kv {
                        lemma_entries_map_at(es, j);
                    }
                }
                assert(entries_map(ns) =~= entries_map(es).insert(kv, vv));
            
}

proof fn lemma_entries_insert_sorted(es: Seq<EntryView>, i: int, kv: Seq<char>, vv: ValueView)
    requires
        entries_sorted(es),
        0 <= i <= es.len(),
        forall|j: int| 0 <= j < i ==> seq_lt(#[trigger] es[j].0, kv),
        i < es.len() ==> seq_lt(kv, es[i].0),
    ensures
        entries_sorted(es.insert(i, (kv, vv))),
        entries_map(es.insert(i, (kv, vv))) == entries_map(es).insert(kv, vv),
{
    let ns = es.insert(i, (kv, vv));
                assert forall|a: int, b: int| 0 <= a < b < ns.len() implies seq_lt(#[trigger] ns[a].0, #[trigger] ns[b].0) by {
                    if a < i && b == i {
                    } else if a < i && b > i {
                    } else if a == i && b > i {
                        if b - 1 > i {
                            crate::text::lemma_seq_lt_transitive(kv, es[i].0, es[b - 1].0);
                        }
                    } else {
                    }
                }
                assert forall|n: Seq<char>| #[trigger] entries_has(ns, n) == (entries_has(es, n) || n == kv) by {
                    if entries_has(es, n) {
                        let j = choose|j: int| 0 <= j < es.len() && #[trigger] es[j].0 == n;
                        if j < i { assert(ns[j].0 == n); } else { assert(ns[j + 1].0 == n); }
                    }
                    if entries_has(ns, n) {
                        let j = choose|j: int| 0 <= j < ns.len() && #[trigger] ns[j].0 == n;
                        if j < i { assert(es[j].0 == n); } else if j > i { assert(es[j - 1].0 == n); }
                    }
                    assert(ns[i].0 == kv);
                }
                assert forall|n: Seq<char>| entries_map(ns).contains_key(n) implies entries_map(ns)[n] == map_after_insert(es, kv, vv, n) by {
                    let j = entries_index(ns, n);
                    lemma_entries_map_at(ns, j);
                    if j != i && n == kv {
                        crate::text::lemma_seq_lt_irreflexive(kv);
                        if j < i {
                            assert(seq_lt(ns[j].0, ns[i].0));
                        } else {
                            assert(seq_lt(ns[i].0, ns[j].0));
                        }
                    }
                    if j < i {
                        lemma_entries_map_at(es, j);
                    } else if j > i {
                        lemma_entries_map_at(es, j - 1);
                    }
                }
                assert(entries_map(ns) =~= entries_map(es).insert(kv, vv));
}

/// The value of the first entry named `k`.
pub open spec fn entries_lookup(es: Seq<EntryView>, k: Seq<char>) -> Option<ValueView>
    decreases es.len(),
{
    if es.len() == 0 {
        None
    } else if es[0].0 == k {
        Some(es[0].1)
    } else {
        entries_lookup(es.drop_first(), k)
    }
}

/// The entries after setting `k` to `v`: the entry goes before the first
/// entry whose name is not below `k`, and takes that entry's place if it has
/// the name `k`.
pub open spec fn entries_set(es: Seq<EntryView>, k: Seq<char>, v: ValueView) -> Seq<EntryView>
    decreases es.len(),
{
    if es.len() == 0 {
        seq![(k, v)]
    } else if !seq_lt(es[0].0, k) {
        if es[0].0 == k {
            seq![(k, v)] + es.drop_first()
        } else {
            seq![(k, v)] + es
        }
    } else {
        seq![es[0]] + entries_set(es.drop_first(), k, v)
    }
}

pub proof fn lemma_entries_lookup_first(es: Seq<EntryView>, k: Seq<char>, i: int)
    requires
        0 <= i <= es.len(),
        forall|j: int| 0 <= j < i ==> es[j].0 != k,
    ensures
        i < es.len() && es[i].0 == k ==> entries_lookup(es, k) == Some(es[i].1),
        i == es.len() ==> entries_lookup(es, k) is None,
    decreases i,
{
    if i > 0 {
        let t = es.drop_first();
        assert forall|j: int| 0 <= j < i - 1 implies t[j].0 != k by {
            assert(t[j] == es[j + 1]);
        }
        lemma_entries_lookup_first(t, k, i - 1);
    }
}

/// Every name of the entries is found by `entries_lookup`.
pub proof fn lemma_entries_lookup_self(es: Seq<EntryView>, i: int)
    requires
        0 <= i < es.len(),
    ensures
        entries_lookup(es, es[i].0) is Some,
    decreases i,
{
    if i > 0 && es[0].0 != es[i].0 {
        lemma_entries_lookup_self(es.drop_first(), i - 1);
        assert(es.drop_first()[i - 1] == es[i]);
    }
}

pub proof fn lemma_entries_lookup_map(es: Seq<EntryView>, k: Seq<char>)
    requires
        entries_sorted(es),
    ensures
        entries_lookup(es, k) == (if entries_map(es).contains_key(k) {
            Some(entries_map(es)[k])
        } else {
            None
        }),
{
    if entries_has(es, k) {
        let i = entries_index(es, k);
        lemma_entries_map_at(es, i);
        assert forall|j: int| 0 <= j < i implies es[j].0 != k by {
            if es[j].0 == k {
                crate::text::lemma_seq_lt_irreflexive(k);
                assert(seq_lt(es[j].0, es[i].0));
            }
        }
        lemma_entries_lookup_first(es, k, i);
    } else {
        lemma_entries_lookup_first(es, k, es.len() as int);
    }
}

pub proof fn lemma_entries_set_at(es: Seq<EntryView>, k: Seq<char>, v: ValueView, i: int)
    requires
        0 <= i <= es.len(),
        forall|j: int| 0 <= j < i ==> seq_lt(#[trigger] es[j].0, k),
        i < es.len() ==> !seq_lt(es[i].0, k),
    ensures
        entries_set(es, k, v) == (if i < es.len() && es[i].0 == k {
            es.update(i, (k, v))
        } else {
            es.insert(i, (k, v))
        }),
    decreases i,
{
    if i == 0 {
        if es.len() == 0 {
            assert(es.insert(0, (k, v)) =~= seq![(k, v)]);
        } else if es[0].0 == k {
            assert(es.update(0, (k, v)) =~= seq![(k, v)] + es.drop_first());
        } else {
            assert(es.insert(0, (k, v)) =~= seq![(k, v)] + es);
        }
    } else {
        let t = es.drop_first();
        assert(seq_lt(es[0].0, k));
        assert forall|j: int| 0 <= j < i - 1 implies seq_lt(#[trigger] t[j].0, k) by {
            assert(t[j] == es[j + 1]);
        }
        lemma_entries_set_at(t, k, v, i - 1);
        if i < es.len() && es[i].0 == k {
            assert(es.update(i, (k, v)) =~= seq![es[0]] + t.update(i - 1, (k, v)));
        } else {
            assert(es.insert(i, (k, v)) =~= seq![es[0]] + t.insert(i - 1, (k, v)));
        }
    }
}

impl PropertyMap {
    /// A copy of this map.
    pub fn duplicate(&self) -> (r: PropertyMap)
        ensures
            r.entries() == self.entries(),
    {
        let mut v: Vec<(String, PropertyValue)> = Vec::new();
        let mut i: usize = 0;
        while i < self.properties.len()
            invariant
                i <= self.properties.len(),
                v.len() == i,
                v@.map_values(|e: (String, PropertyValue)| entry_view(e)) == self.entries().take(i as int),
            decreases self.properties.len() - i,
        {
            let e = &self.properties[i];
            let ghost prev = v@;
            v.push((e.0.clone(), e.1.duplicate()));
            assert(entry_view(v@[i as int]) == self.entries()[i as int]);
            assert(forall|j: int| 0 <= j < i ==> v@[j] == prev[j]);
            i = i + 1;
            assert(v@.map_values(|e: (String, PropertyValue)| entry_view(e)) =~= self.entries().take(i as int));
        }
        assert(self.entries().take(i as int) =~= self.entries());
        PropertyMap { properties: v }
    }
}

/// One node of the scene: its identity, kind, properties and children.
#[derive(Debug, PartialEq)]
pub struct SceneNode {
    pub key: SceneKey,
    pub kind: NodeKind,
    pub properties: PropertyMap,
    pub children: Vec<SceneNode>,
}

/// Model of a node: key bytes, kind, property entries in order, children.
pub struct NodeView {
    pub key: Seq<u8>,
    pub kind: KindView,
    pub props: Seq<EntryView>,
    pub children: Seq<NodeView>,
}

/// Models of a list of nodes.
pub open spec fn nodes_view(s: Seq<SceneNode>) -> Seq<NodeView>
    decreases s,
{
    if s.len() == 0 {
        Seq::empty()
    } else {
        proof {
            vstd::seq::axiom_seq_index_decreases(s, s.len() - 1);
            vstd::seq::axiom_seq_subrange_decreases(s, 0, s.len() - 1);
        }
        nodes_view(s.drop_last()).push(node_view(s.last()))
    }
}

/// Model of a node.
pub open spec fn node_view(n: SceneNode) -> NodeView
    decreases n,
{
    proof {
        vstd::std_specs::vec::axiom_vec_decreases_to_view(n.children);
    }
    NodeView {
        key: n.key@,
        kind: n.kind@,
        props: n.properties.entries(),
        children: nodes_view(n.children@),
    }
}

impl View for SceneNode {
    type V = NodeView;

    open spec fn view(&self) -> NodeView {
        node_view(*self)
    }
}

pub broadcast proof fn lemma_nodes_view(s: Seq<SceneNode>)
    ensures
        #[trigger] nodes_view(s).len() == s.len(),
        forall|i: int| 0 <= i < s.len() ==> #[trigger] nodes_view(s)[i] == node_view(s[i]),
    decreases s.len(),
{
    if s.len() > 0 {
        lemma_nodes_view(s.drop_last());
    }
}

/// Every property map in the tree keeps its entries in order.
pub open spec fn tree_wf(n: NodeView) -> bool
    decreases n,
{
    &&& entries_sorted(n.props)
    &&& forall|i: int| 0 <= i < n.children.len() ==> tree_wf(#[trigger] n.children[i])
}

impl SceneNode {
    /// A node with these fields.
    pub fn py_new(key: SceneKey, kind: NodeKind, properties: PropertyMap, children: Vec<SceneNode>) -> (r: SceneNode)
        ensures
            r.key == key,
            r.kind == kind,
            r.properties == properties,
            r.children == children,
    {
        SceneNode { key, kind, properties, children }
    }

    /// A copy of this node and all below it.
    pub fn duplicate(&self) -> (r: SceneNode)
        ensures
            r@ == self@,
        decreases self,
    {
        let mut children: Vec<SceneNode> = Vec::new();
        let mut i: usize = 0;
        while i < self.children.len()
            invariant
                i <= self.children.len(),
                children.len() == i,
                nodes_view(children@) == nodes_view(self.children@).take(i as int),
            decreases self.children.len() - i,
        {
            proof {
                broadcast use lemma_nodes_view;
                vstd::std_specs::vec::axiom_vec_decreases_to_view(self.children);
                vstd::seq::axiom_seq_index_decreases(self.children@, i as int);
            }
            let c = self.children[i].duplicate();
            assert(node_view(c) == node_view(self.children@[i as int]));
            let ghost prev = children@;
            children.push(c);
            i = i + 1;
            proof {
                assert(children@.drop_last() =~= prev);
                assert(children@.last() == c);
                assert(nodes_view(children@) == nodes_view(prev).push(node_view(c)));
                lemma_nodes_view(self.children@);
                broadcast use lemma_nodes_view;
                assert(nodes_view(children@) =~= nodes_view(self.children@).take(i as int));
            }
        }
        proof {
            broadcast use lemma_nodes_view;
            assert(nodes_view(self.children@).take(i as int) =~= nodes_view(self.children@));
        }
        SceneNode {
            key: self.key.duplicate(),
            kind: self.kind.duplicate(),
            properties: self.properties.duplicate(),
            children,
        }
    }
}

impl Clone for SceneNode {
    fn clone(&self) -> (r: SceneNode)
        ensures
            r@ == self@,
    {
        self.duplicate()
    }
}

/// A whole scene: the tree under its root.
#[derive(Debug, Clone, PartialEq)]
pub struct SceneDescription {
    pub root: SceneNode,
}

impl View for SceneDescription {
    type V = NodeView;

    open spec fn view(&self) -> NodeView {
        self.root@
    }
}

impl SceneDescription {
    /// A scene with this root.
    pub fn py_new(root: SceneNode) -> (r: SceneDescription)
        ensures
            r.root == root,
    {
        SceneDescription { root }
    }
}

/// An incremental change to a scene, addressed by node key.
#[derive(Debug, Clone, PartialEq)]
pub enum ScenePatch {
    Insert { parent_key: SceneKey, index: u32, node: SceneNode },
    Remove { key: SceneKey },
    UpdateProp { key: SceneKey, prop: String, value: PropertyValue },
    Replace { key: SceneKey, with: SceneNode },
}

/// Model of a patch.
pub enum PatchView {
    Insert { parent: Seq<u8>, index: u32, node: NodeView },
    Remove { key: Seq<u8> },
    UpdateProp { key: Seq<u8>, prop: Seq<char>, value: ValueView },
    Replace { key: Seq<u8>, with: NodeView },
}

impl View for ScenePatch {
    type V = PatchView;

    open spec fn view(&self) -> PatchView {
        match self {
            ScenePatch::Insert { parent_key, index, node } => PatchView::Insert {
                parent: parent_key@,
                index: *index,
                node: node@,
            },
            ScenePatch::Remove { key } => PatchView::Remove { key: key@ },
            ScenePatch::UpdateProp { key, prop, value } => PatchView::UpdateProp {
                key: key@,
                prop: prop@,
                value: value@,
            },
            ScenePatch::Replace { key, with } => PatchView::Replace { key: key@, with: with@ },
        }
    }
}

/// Models of a list of patches.
pub open spec fn patches_view(ps: Seq<ScenePatch>) -> Seq<PatchView> {
    ps.map_values(|p: ScenePatch| p@)
}

/// Where `entries_set` puts the entry for `k`: the first entry whose name is
/// not below `k` (or the end).
pub open spec fn first_not_below(es: Seq<EntryView>, k: Seq<char>) -> int
    decreases es.len(),
{
    if es.len() == 0 || !seq_lt(es[0].0, k) {
        0
    } else {
        1 + first_not_below(es.drop_first(), k)
    }
}

proof fn lemma_first_not_below(es: Seq<EntryView>, k: Seq<char>)
    ensures
        0 <= first_not_below(es, k) <= es.len(),
        forall|j: int| 0 <= j < first_not_below(es, k) ==> seq_lt(#[trigger] es[j].0, k),
        first_not_below(es, k) < es.len() ==> !seq_lt(es[first_not_below(es, k)].0, k),
    decreases es.len(),
{
    if es.len() > 0 && seq_lt(es[0].0, k) {
        let t = es.drop_first();
        lemma_first_not_below(t, k);
        assert forall|j: int| 0 <= j < first_not_below(es, k) implies seq_lt(#[trigger] es[j].0, k) by {
            if j > 0 {
                assert(es[j] == t[j - 1]);
            }
        }
    }
}

/// Setting a property keeps the entries in order and sets the map.
pub proof fn lemma_entries_set_sorted(es: Seq<EntryView>, k: Seq<char>, v: ValueView)
    requires
        entries_sorted(es),
    ensures
        entries_sorted(entries_set(es, k, v)),
        entries_map(entries_set(es, k, v)) == entries_map(es).insert(k, v),
{
    lemma_first_not_below(es, k);
    let i = first_not_below(es, k);
    lemma_entries_set_at(es, k, v, i);
    if i < es.len() && es[i].0 == k {
        lemma_entries_update_sorted(es, i, k, v);
    } else {
        if i < es.len() {
            crate::text::lemma_seq_lt_total(es[i].0, k);
        }
        lemma_entries_insert_sorted(es, i, k, v);
    }
}

/// The value that the map of `es` holds at `n` once `k` is set to `v`.
pub open spec fn map_after_insert(es: Seq<EntryView>, k: Seq<char>, v: ValueView, n: Seq<char>) -> ValueView {
    if n == k { v } else { entries_map(es)[n] }
}

} // verus!
