//! The object model: identifiers, values, dictionaries and streams, each with
//! its mathematical model.

use vstd::prelude::*;
use crate::bytes::{bytes_equal, copy_bytes};
use crate::error::Error;
use crate::names::TYPE;

verus! {

/// Identifier of an indirect object: object number and generation number.
#[derive(Clone, Copy, Debug, PartialEq, Eq, Structural)]
pub struct ObjectId {
    pub number: u32,
    pub generation: u16,
}

impl ObjectId {
    /// Position of the identifier in the total order of identifiers:
    /// by number first, by generation second.
    pub open spec fn key(self) -> int {
        self.number as int * 65536 + self.generation as int
    }

    pub open spec fn precedes(self, other: ObjectId) -> bool {
        self.key() < other.key()
    }

    pub fn new(number: u32, generation: u16) -> (id: ObjectId)
        ensures
            id == (ObjectId { number, generation }),
    {
        ObjectId { number, generation }
    }

    pub fn less_than(&self, other: &ObjectId) -> (r: bool)
        ensures
            r == self.precedes(*other),
    {
        self.number < other.number || (self.number == other.number && self.generation
            < other.generation)
    }
}

/// Two identifiers with the same key are the same identifier.
pub proof fn lemma_key_injective(a: ObjectId, b: ObjectId)
    ensures
        a.key() == b.key() <==> a == b,
{
}

/// How a string object is written in a file.
#[derive(Clone, Copy, Debug, PartialEq, Eq, Structural)]
pub enum StringFormat {
    Literal,
    Hexadecimal,
}

/// Mathematical model of a dictionary: its entries in insertion order.
pub type DictModel = Seq<(Seq<u8>, Value)>;

/// Mathematical model of a PDF value.
pub enum Value {
    Null,
    Boolean(bool),
    Integer(i64),
    /// A real number, held as the bit pattern of its single-precision encoding.
    Real(u32),
    Name(Seq<u8>),
    String(Seq<u8>, StringFormat),
    Array(Seq<Value>),
    Dictionary(DictModel),
    Stream(StreamModel),
    Reference(ObjectId),
}

/// Mathematical model of a stream: its dictionary, its payload, and whether the
/// payload may be compressed when the document is written.
pub struct StreamModel {
    pub dict: DictModel,
    pub content: Seq<u8>,
    pub allows_compression: bool,
}

/// Index of the first entry at or after `start` whose name is `name`;
/// the length of `d` where there is none.
pub open spec fn find_from(d: DictModel, name: Seq<u8>, start: int) -> int
    decreases d.len() - start,
{
    if start < 0 || start >= d.len() {
        d.len() as int
    } else if d[start].0 == name {
        start
    } else {
        find_from(d, name, start + 1)
    }
}

pub open spec fn dict_find(d: DictModel, name: Seq<u8>) -> int {
    find_from(d, name, 0)
}

pub open spec fn dict_has(d: DictModel, name: Seq<u8>) -> bool {
    dict_find(d, name) < d.len()
}

pub open spec fn dict_get(d: DictModel, name: Seq<u8>) -> Option<Value> {
    if dict_has(d, name) {
        Some(d[dict_find(d, name)].1)
    } else {
        None
    }
}

/// Insert-or-overwrite: the entry named `name` takes the value `v` in place,
/// or a new entry is added at the end.
pub open spec fn dict_set(d: DictModel, name: Seq<u8>, v: Value) -> DictModel {
    if dict_has(d, name) {
        d.update(dict_find(d, name), (name, v))
    } else {
        d.push((name, v))
    }
}

pub open spec fn dict_remove(d: DictModel, name: Seq<u8>) -> DictModel {
    if dict_has(d, name) {
        d.remove(dict_find(d, name))
    } else {
        d
    }
}

/// The name under `Type`, where the dictionary has one.
pub open spec fn dict_type(d: DictModel) -> Option<Seq<u8>> {
    match dict_get(d, TYPE@) {
        Some(Value::Name(n)) => Some(n),
        _ => None,
    }
}

/// The type name that a dictionary or a stream declares.
pub open spec fn value_type(v: Value) -> Option<Seq<u8>> {
    match v {
        Value::Dictionary(d) => dict_type(d),
        Value::Stream(s) => dict_type(s.dict),
        _ => None,
    }
}

/// No two entries carry the same name.
pub open spec fn unique_names(d: DictModel) -> bool {
    forall|i: int, j: int| 0 <= i < j < d.len() ==> (#[trigger] d[i]).0 != (#[trigger] d[j]).0
}

#[derive(Debug, PartialEq)]
struct Entry {
    name: Vec<u8>,
    value: Object,
}

/// A dictionary object: names mapped to values, names unique.
#[derive(Debug, PartialEq)]
pub struct Dictionary {
    entries: Vec<Entry>,
}

/// A stream object.
#[derive(Debug, PartialEq)]
pub struct Stream {
    pub dict: Dictionary,
    pub content: Vec<u8>,
    pub allows_compression: bool,
}

/// A PDF object.
#[derive(Debug, PartialEq)]
pub enum Object {
    Null,
    Boolean(bool),
    Integer(i64),
    /// A real number, held as the bit pattern of its single-precision encoding.
    Real(u32),
    Name(Vec<u8>),
    String(Vec<u8>, StringFormat),
    Array(Vec<Object>),
    Dictionary(Dictionary),
    Stream(Stream),
    Reference(ObjectId),
}

spec fn entries_view(entries: Seq<Entry>) -> DictModel
    decreases entries,
{
    Seq::new(
        entries.len(),
        |i: int|
            if 0 <= i < entries.len() {
                (entries[i].name@, object_view(entries[i].value))
            } else {
                (Seq::empty(), Value::Null)
            },
    )
}

pub open spec fn items_view(items: Seq<Object>) -> Seq<Value>
    decreases items,
{
    Seq::new(
        items.len(),
        |i: int|
            if 0 <= i < items.len() {
                object_view(items[i])
            } else {
                Value::Null
            },
    )
}

pub open spec fn object_view(o: Object) -> Value
    decreases o,
{
    match o {
        Object::Null => Value::Null,
        Object::Boolean(b) => Value::Boolean(b),
        Object::Integer(i) => Value::Integer(i),
        Object::Real(r) => Value::Real(r),
        Object::Name(n) => Value::Name(n@),
        Object::String(s, f) => Value::String(s@, f),
        Object::Array(items) => Value::Array(items_view(items@)),
        Object::Dictionary(d) => Value::Dictionary(d.view()),
        Object::Stream(s) => Value::Stream(s.view()),
        Object::Reference(id) => Value::Reference(id),
    }
}

/// What `items_view` holds, entry by entry.
pub proof fn lemma_items_view(items: Seq<Object>)
    ensures
        items_view(items).len() == items.len(),
        forall|i: int| 0 <= i < items.len() ==> (#[trigger] items_view(items)[i]) == items[i]@,
{
}

proof fn lemma_entries_view(entries: Seq<Entry>)
    ensures
        entries_view(entries).len() == entries.len(),
        forall|i: int|
            0 <= i < entries.len() ==> (#[trigger] entries_view(entries)[i]) == (
                entries[i].name@,
                entries[i].value@,
            ),
{
}

impl View for Dictionary {
    type V = DictModel;

    closed spec fn view(&self) -> DictModel
        decreases self,
    {
        entries_view(self.entries@)
    }
}

impl View for Stream {
    type V = StreamModel;

    open spec fn view(&self) -> StreamModel
        decreases self,
    {
        StreamModel {
            dict: self.dict.view(),
            content: self.content@,
            allows_compression: self.allows_compression,
        }
    }
}

impl View for Object {
    type V = Value;

    open spec fn view(&self) -> Value {
        object_view(*self)
    }
}

impl Dictionary {
    #[verifier::type_invariant]
    closed spec fn names_are_unique(&self) -> bool {
        unique_names(self@)
    }

    /// An empty dictionary.
    pub fn new() -> (d: Dictionary)
        ensures
            d@ == Seq::<(Seq<u8>, Value)>::empty(),
    {
        let d = Dictionary { entries: Vec::new() };
        assert(d@ =~= Seq::<(Seq<u8>, Value)>::empty());
        d
    }

    pub fn len(&self) -> (n: usize)
        ensures
            n == self@.len(),
            unique_names(self@),
    {
        proof {
            use_type_invariant(self);
        }
        self.entries.len()
    }

    /// A dictionary with the names of this one, in its order, and `values` in
    /// the place of its values.
    pub fn with_values(&self, values: Vec<Object>) -> (d: Dictionary)
        requires
            values@.len() == self@.len(),
        ensures
            d@ == Seq::new(self@.len(), |i: int| (self@[i].0, values@[i]@)),
    {
        proof {
            use_type_invariant(self);
        }
        let mut values = values;
        let mut entries: Vec<Entry> = Vec::new();
        let ghost given = values@;
        let mut i: usize = self.entries.len();
        while i > 0
            invariant
                i <= self.entries.len(),
                self@ == entries_view(self.entries@),
                given.len() == self.entries.len(),
                values@ == given.subrange(0, i as int),
                entries@.len() == self.entries.len() - i,
                forall|k: int|
                    0 <= k < entries@.len() ==> (#[trigger] entries@[k]).name@ == self@[
                        self.entries.len() - 1 - k
                    ].0 && entries@[k].value@ == given[self.entries.len() - 1 - k]@,
            decreases i,
        {
            i -= 1;
            let value = values.pop().unwrap();
            let name = copy_bytes(self.entries[i].name.as_slice());
            proof {
                lemma_entries_view(self.entries@);
            }
            entries.push(Entry { name, value });
        }
        let mut ordered: Vec<Entry> = Vec::new();
        while entries.len() > 0
            invariant
                ordered@.len() + entries@.len() == self.entries.len(),
                self@ == entries_view(self.entries@),
                given.len() == self.entries.len(),
                forall|k: int|
                    0 <= k < entries@.len() ==> (#[trigger] entries@[k]).name@ == self@[
                        self.entries.len() - 1 - k
                    ].0 && entries@[k].value@ == given[self.entries.len() - 1 - k]@,
                forall|k: int|
                    0 <= k < ordered@.len() ==> (#[trigger] ordered@[k]).name@ == self@[k].0
                        && ordered@[k].value@ == given[k]@,
            decreases entries.len(),
        {
            let entry = entries.pop().unwrap();
            ordered.push(entry);
        }
        proof {
            lemma_entries_view(ordered@);
            let wanted = Seq::new(self@.len(), |i: int| (self@[i].0, given[i]@));
            assert(entries_view(ordered@) =~= wanted);
            assert forall|a: int, b: int| 0 <= a < b < wanted.len() implies (#[trigger] wanted[a]).0
                != (#[trigger] wanted[b]).0 by {
                assert(self@[a].0 != self@[b].0);
            }
        }
        Dictionary { entries: ordered }
    }

    fn position(&self, name: &[u8]) -> (i: usize)
        ensures
            i == dict_find(self@, name@),
            i <= self@.len(),
    {
        let mut i: usize = 0;
        while i < self.entries.len()
            invariant
                i <= self.entries.len(),
                self@.len() == self.entries.len(),
                dict_find(self@, name@) == find_from(self@, name@, i as int),
            decreases self.entries.len() - i,
        {
            if bytes_equal(self.entries[i].name.as_slice(), name) {
                return i;
            }
            i += 1;
        }
        i
    }

    /// Whether an entry is named `name`.
    pub fn has(&self, name: &[u8]) -> (found: bool)
        ensures
            found == dict_has(self@, name@),
    {
        self.position(name) < self.entries.len()
    }

    /// The value under `name`; `MissingKey` where there is none.
    pub fn get(&self, name: &[u8]) -> (r: Result<&Object, Error>)
        ensures
            match r {
                Ok(o) => dict_get(self@, name@) == Some(o@),
                Err(e) => e == Error::MissingKey && dict_get(self@, name@).is_none(),
            },
    {
        let i = self.position(name);
        if i < self.entries.len() {
            Ok(&self.entries[i].value)
        } else {
            Err(Error::MissingKey)
        }
    }

    /// Insert-or-overwrite.
    pub fn set(&mut self, name: &[u8], value: Object)
        ensures
            final(self)@ == dict_set(old(self)@, name@, value@),
    {
        proof {
            use_type_invariant(&*self);
        }
        let i = self.position(name);
        let mut entries: Vec<Entry> = Vec::new();
        core::mem::swap(&mut self.entries, &mut entries);
        let entry = Entry { name: copy_bytes(name), value };
        if i < entries.len() {
            entries.set(i, entry);
        } else {
            entries.push(entry);
        }
        assert(entries_view(entries@) =~= dict_set(old(self)@, name@, value@));
        proof {
            lemma_set_keeps_names_unique(old(self)@, name@, value@);
        }
        self.entries = entries;
    }

    /// Removes the entry named `name` and hands back its value.
    pub fn remove(&mut self, name: &[u8]) -> (removed: Option<Object>)
        ensures
            final(self)@ == dict_remove(old(self)@, name@),
            !dict_has(final(self)@, name@),
            match removed {
                Some(o) => dict_get(old(self)@, name@) == Some(o@),
                None => !dict_has(old(self)@, name@),
            },
    {
        proof {
            use_type_invariant(&*self);
            lemma_remove_drops_name(self@, name@);
        }
        let i = self.position(name);
        if i < self.entries.len() {
            let mut entries: Vec<Entry> = Vec::new();
            core::mem::swap(&mut self.entries, &mut entries);
            let entry = entries.remove(i);
            assert(entries_view(entries@) =~= dict_remove(old(self)@, name@));
            self.entries = entries;
            Some(entry.value)
        } else {
            None
        }
    }

    /// The name of the entry at position `i`.
    pub fn name_at(&self, i: usize) -> (name: &Vec<u8>)
        requires
            i < self@.len(),
        ensures
            name@ == self@[i as int].0,
    {
        &self.entries[i].name
    }

    /// The value of the entry at position `i`.
    pub fn value_at(&self, i: usize) -> (value: &Object)
        requires
            i < self@.len(),
        ensures
            value@ == self@[i as int].1,
            decreases_to!(self => value),
    {
        &self.entries[i].value
    }

    /// Whether the dictionary declares the type `name`.
    pub fn has_type(&self, name: &[u8]) -> (r: bool)
        ensures
            r == (dict_type(self@) == Some(name@)),
    {
        match self.get(&TYPE) {
            Ok(Object::Name(n)) => bytes_equal(n.as_slice(), name),
            _ => false,
        }
    }

    /// A deep copy.
    pub fn duplicate(&self) -> (copy: Dictionary)
        ensures
            copy@ == self@,
        decreases self,
    {
        proof {
            use_type_invariant(self);
        }
        let mut entries: Vec<Entry> = Vec::new();
        let mut i: usize = 0;
        while i < self.entries.len()
            invariant
                i <= self.entries.len(),
                self@ == entries_view(self.entries@),
                entries_view(entries@) == self@.subrange(0, i as int),
            decreases self.entries.len() - i,
        {
            let name = copy_bytes(self.entries[i].name.as_slice());
            let value = self.entries[i].value.duplicate();
            proof {
                lemma_entries_view(entries@);
            }
            entries.push(Entry { name, value });
            proof {
                lemma_entries_view(entries@);
                lemma_entries_view(self.entries@);
            }
            assert(entries_view(entries@) =~= self@.subrange(0, i + 1));
            i += 1;
        }
        assert(entries_view(entries@) =~= self@);
        Dictionary { entries }
    }
}

impl Stream {
    /// A stream with the dictionary `dict` and the payload `content`, open to
    /// compression.
    pub fn new(dict: Dictionary, content: Vec<u8>) -> (s: Stream)
        ensures
            s@ == (StreamModel { dict: dict@, content: content@, allows_compression: true }),
    {
        Stream { dict, content, allows_compression: true }
    }

    /// A deep copy.
    pub fn duplicate(&self) -> (copy: Stream)
        ensures
            copy@ == self@,
        decreases self,
    {
        Stream {
            dict: self.dict.duplicate(),
            content: copy_bytes(self.content.as_slice()),
            allows_compression: self.allows_compression,
        }
    }
}

impl Object {
    /// The name object that holds the bytes of `name`.
    pub fn name(name: &[u8]) -> (o: Object)
        ensures
            o@ == Value::Name(name@),
    {
        Object::Name(copy_bytes(name))
    }

    pub fn as_bool(&self) -> (r: Result<bool, Error>)
        ensures
            match r {
                Ok(b) => self@ == Value::Boolean(b),
                Err(e) => e == Error::TypeMismatch && !(self@ is Boolean),
            },
    {
        match self {
            Object::Boolean(b) => Ok(*b),
            _ => Err(Error::TypeMismatch),
        }
    }

    pub fn as_i64(&self) -> (r: Result<i64, Error>)
        ensures
            match r {
                Ok(i) => self@ == Value::Integer(i),
                Err(e) => e == Error::TypeMismatch && !(self@ is Integer),
            },
    {
        match self {
            Object::Integer(i) => Ok(*i),
            _ => Err(Error::TypeMismatch),
        }
    }

    /// The bit pattern of a real number.
    pub fn as_real_bits(&self) -> (r: Result<u32, Error>)
        ensures
            match r {
                Ok(bits) => self@ == Value::Real(bits),
                Err(e) => e == Error::TypeMismatch && !(self@ is Real),
            },
    {
        match self {
            Object::Real(bits) => Ok(*bits),
            _ => Err(Error::TypeMismatch),
        }
    }

    pub fn as_name(&self) -> (r: Result<&Vec<u8>, Error>)
        ensures
            match r {
                Ok(n) => self@ == Value::Name(n@),
                Err(e) => e == Error::TypeMismatch && !(self@ is Name),
            },
    {
        match self {
            Object::Name(n) => Ok(n),
            _ => Err(Error::TypeMismatch),
        }
    }

    /// The bytes of a string object.
    pub fn as_str(&self) -> (r: Result<&Vec<u8>, Error>)
        ensures
            match r {
                Ok(s) => self@ is String && self@->String_0 == s@,
                Err(e) => e == Error::TypeMismatch && !(self@ is String),
            },
    {
        match self {
            Object::String(s, _) => Ok(s),
            _ => Err(Error::TypeMismatch),
        }
    }

    pub fn as_array(&self) -> (r: Result<&Vec<Object>, Error>)
        ensures
            match r {
                Ok(items) => self@ == Value::Array(items_view(items@)),
                Err(e) => e == Error::TypeMismatch && !(self@ is Array),
            },
    {
        match self {
            Object::Array(items) => Ok(items),
            _ => Err(Error::TypeMismatch),
        }
    }

    pub fn as_dict(&self) -> (r: Result<&Dictionary, Error>)
        ensures
            match r {
                Ok(d) => self@ == Value::Dictionary(d@),
                Err(e) => e == Error::TypeMismatch && !(self@ is Dictionary),
            },
    {
        match self {
            Object::Dictionary(d) => Ok(d),
            _ => Err(Error::TypeMismatch),
        }
    }

    pub fn as_stream(&self) -> (r: Result<&Stream, Error>)
        ensures
            match r {
                Ok(s) => self@ == Value::Stream(s@),
                Err(e) => e == Error::TypeMismatch && !(self@ is Stream),
            },
    {
        match self {
            Object::Stream(s) => Ok(s),
            _ => Err(Error::TypeMismatch),
        }
    }

    pub fn as_reference(&self) -> (r: Result<ObjectId, Error>)
        ensures
            match r {
                Ok(id) => self@ == Value::Reference(id),
                Err(e) => e == Error::TypeMismatch && !(self@ is Reference),
            },
    {
        match self {
            Object::Reference(id) => Ok(*id),
            _ => Err(Error::TypeMismatch),
        }
    }

    /// The type name that a dictionary or a stream declares: `TypeMismatch` for
    /// any other object and for a `Type` entry that is no name, `MissingKey`
    /// where there is no `Type` entry.
    pub fn declared_type(&self) -> (r: Result<&Vec<u8>, Error>)
        ensures
            match r {
                Ok(n) => value_type(self@) == Some(n@),
                Err(e) => value_type(self@).is_none() && (e == Error::MissingKey <==> (match self@ {
                    Value::Dictionary(d) => !dict_has(d, TYPE@),
                    Value::Stream(s) => !dict_has(s.dict, TYPE@),
                    _ => false,
                })) && (e == Error::MissingKey || e == Error::TypeMismatch),
            },
    {
        let dict = match self {
            Object::Dictionary(d) => d,
            Object::Stream(s) => &s.dict,
            _ => {
                return Err(Error::TypeMismatch);
            },
        };
        match dict.get(&TYPE) {
            Ok(Object::Name(n)) => Ok(n),
            Ok(_) => Err(Error::TypeMismatch),
            Err(e) => Err(e),
        }
    }

    /// Whether the object is a dictionary or a stream that declares the type `name`.
    pub fn has_type(&self, name: &[u8]) -> (r: bool)
        ensures
            r == (value_type(self@) == Some(name@)),
    {
        match self {
            Object::Dictionary(d) => d.has_type(name),
            Object::Stream(s) => s.dict.has_type(name),
            _ => false,
        }
    }

    /// A deep copy.
    pub fn duplicate(&self) -> (copy: Object)
        ensures
            copy@ == self@,
        decreases self,
    {
        match self {
            Object::Null => Object::Null,
            Object::Boolean(b) => Object::Boolean(*b),
            Object::Integer(i) => Object::Integer(*i),
            Object::Real(bits) => Object::Real(*bits),
            Object::Name(n) => Object::Name(copy_bytes(n.as_slice())),
            Object::String(s, f) => Object::String(copy_bytes(s.as_slice()), *f),
            Object::Array(items) => {
                let mut out: Vec<Object> = Vec::new();
                let mut i: usize = 0;
                while i < items.len()
                    invariant
                        i <= items.len(),
                        *self == Object::Array(*items),
                        items_view(out@) == items_view(items@).subrange(0, i as int),
                    decreases items.len() - i,
                {
                    proof {
                        lemma_items_view(out@);
                    }
                    assert(decreases_to!(self => self->Array_0));
                    out.push(items[i].duplicate());
                    proof {
                        lemma_items_view(out@);
                        lemma_items_view(items@);
                    }
                    assert(items_view(out@) =~= items_view(items@).subrange(0, i + 1));
                    i += 1;
                }
                assert(items_view(out@) =~= items_view(items@));
                Object::Array(out)
            },
            Object::Dictionary(d) => Object::Dictionary(d.duplicate()),
            Object::Stream(s) => Object::Stream(s.duplicate()),
            Object::Reference(id) => Object::Reference(*id),
        }
    }
}

/// `dict_find` gives the first entry of that name, or the length where no
/// entry has it.
pub proof fn lemma_find_from(d: DictModel, name: Seq<u8>, start: int)
    requires
        0 <= start <= d.len(),
    ensures
        start <= find_from(d, name, start) <= d.len(),
        find_from(d, name, start) < d.len() ==> d[find_from(d, name, start)].0 == name,
        forall|j: int| start <= j < find_from(d, name, start) ==> (#[trigger] d[j]).0 != name,
    decreases d.len() - start,
{
    if start < d.len() && d[start].0 != name {
        lemma_find_from(d, name, start + 1);
    }
}

/// An index before which no entry is named `name`, and which holds such an
/// entry or is the length, is what `dict_find` gives.
pub proof fn lemma_find_is(d: DictModel, name: Seq<u8>, i: int)
    requires
        0 <= i <= d.len(),
        forall|j: int| 0 <= j < i ==> (#[trigger] d[j]).0 != name,
        i < d.len() ==> d[i].0 == name,
    ensures
        dict_find(d, name) == i,
{
    lemma_find_from(d, name, 0);
    let f = dict_find(d, name);
    if f < i {
        assert(d[f].0 == name);
    } else if f > i {
        assert(d[i].0 != name);
    }
}

/// After `set`, the name holds the value, and every other name is as it was.
pub proof fn lemma_get_after_set(d: DictModel, name: Seq<u8>, v: Value, other: Seq<u8>)
    ensures
        dict_get(dict_set(d, name, v), name) == Some(v),
        other != name ==> dict_get(dict_set(d, name, v), other) == dict_get(d, other),
{
    let s = dict_set(d, name, v);
    lemma_find_from(d, name, 0);
    lemma_find_from(d, other, 0);
    let i = dict_find(d, name);
    let o = dict_find(d, other);
    if i < d.len() {
        assert forall|j: int| 0 <= j < i implies (#[trigger] s[j]).0 != name by {
            assert(s[j] == d[j]);
        }
        lemma_find_is(s, name, i);
        if other != name {
            assert forall|j: int| 0 <= j < o implies (#[trigger] s[j]).0 != other by {
                assert(s[j].0 == d[j].0);
            }
            if o < d.len() {
                assert(s[o] == d[o]);
            }
            lemma_find_is(s, other, o);
        }
    } else {
        assert forall|j: int| 0 <= j < d.len() implies (#[trigger] s[j]).0 != name by {
            assert(s[j] == d[j]);
        }
        lemma_find_is(s, name, d.len() as int);
        if other != name {
            let so = if o < d.len() { o } else { s.len() as int };
            assert forall|j: int| 0 <= j < so implies (#[trigger] s[j]).0 != other by {
                if j < d.len() {
                    assert(s[j] == d[j]);
                }
            }
            if o < d.len() {
                assert(s[o] == d[o]);
            }
            lemma_find_is(s, other, so);
        }
    }
}

/// After `remove`, every other name is as it was.
pub proof fn lemma_get_after_remove(d: DictModel, name: Seq<u8>, other: Seq<u8>)
    requires
        other != name,
    ensures
        dict_get(dict_remove(d, name), other) == dict_get(d, other),
{
    let s = dict_remove(d, name);
    lemma_find_from(d, name, 0);
    lemma_find_from(d, other, 0);
    let i = dict_find(d, name);
    let o = dict_find(d, other);
    if i < d.len() {
        let so = if o < i { o } else { o - 1 };
        assert forall|j: int| 0 <= j < so implies (#[trigger] s[j]).0 != other by {
            if j < i {
                assert(s[j] == d[j]);
            } else {
                assert(s[j] == d[j + 1]);
            }
        }
        if o < d.len() {
            if o < i {
                assert(s[so] == d[o]);
            } else {
                assert(s[so] == d[so + 1]);
            }
        }
        lemma_find_is(s, other, so);
    }
}

/// With unique names, an entry of a dictionary after `set` is the entry set,
/// or an entry of another name that stood there before.
pub proof fn lemma_entry_after_set(d: DictModel, name: Seq<u8>, v: Value, x: int)
    requires
        unique_names(d),
        0 <= x < dict_set(d, name, v).len(),
    ensures
        dict_set(d, name, v)[x] == (name, v) || (x < d.len() && dict_set(d, name, v)[x] == d[x]
            && d[x].0 != name),
{
    lemma_find_from(d, name, 0);
    let f = dict_find(d, name);
    if f < d.len() && x != f {
        if x < f {
            assert(d[x].0 != d[f].0);
        } else {
            assert(d[f].0 != d[x].0);
        }
    }
}

/// With unique names, an entry of a dictionary after `remove` is an entry of
/// another name that stood in it before.
pub proof fn lemma_entry_after_remove(d: DictModel, name: Seq<u8>, x: int) -> (y: int)
    requires
        unique_names(d),
        0 <= x < dict_remove(d, name).len(),
    ensures
        0 <= y < d.len(),
        dict_remove(d, name)[x] == d[y],
        d[y].0 != name,
{
    lemma_find_from(d, name, 0);
    let f = dict_find(d, name);
    if f < d.len() {
        let y = if x < f { x } else { x + 1 };
        if y < f {
            assert(d[y].0 != d[f].0);
        } else {
            assert(d[f].0 != d[y].0);
        }
        y
    } else {
        x
    }
}

/// With unique names, removing an entry leaves no entry of that name.
pub proof fn lemma_remove_drops_name(d: DictModel, name: Seq<u8>)
    requires
        unique_names(d),
    ensures
        unique_names(dict_remove(d, name)),
        !dict_has(dict_remove(d, name), name),
{
    lemma_find_from(d, name, 0);
    let r = dict_remove(d, name);
    lemma_find_from(r, name, 0);
    let i = dict_find(d, name);
    if i < d.len() {
        assert forall|j: int| 0 <= j < r.len() implies (#[trigger] r[j]).0 != name by {
            if j < i {
                assert(r[j] == d[j]);
            } else {
                assert(r[j] == d[j + 1]);
            }
        }
    }
}

/// Setting an entry keeps the names unique.
pub proof fn lemma_set_keeps_names_unique(d: DictModel, name: Seq<u8>, v: Value)
    requires
        unique_names(d),
    ensures
        unique_names(dict_set(d, name, v)),
{
    lemma_find_from(d, name, 0);
}

} // verus!
