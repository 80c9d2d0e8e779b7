//! The document: trailer, objects, and what it means that no reference dangles.

use vstd::prelude::*;
use crate::error::Error;
use crate::names::ROOT;
use crate::object::{
    dict_get, dict_has, Dictionary, DictModel, Object, ObjectId, unique_names, Value,
};
use crate::table::{ascending, ObjectTable, table_get, table_has, TableModel};
use crate::walker::value_refs;

verus! {

/// Mathematical model of a document.
pub struct DocumentModel {
    pub version: Seq<char>,
    pub trailer: DictModel,
    pub objects: TableModel,
    pub max_id: u32,
}

/// A document: the owner of every object of its graph.
pub struct PdfDocument {
    /// The version of the file format that the document follows.
    pub version: String,
    /// The trailer dictionary; its `Root` entry refers to the catalog.
    pub trailer: Dictionary,
    /// The objects of the document, each under its identifier.
    pub objects: ObjectTable,
    /// The greatest object number handed out so far.
    pub max_id: u32,
}

impl View for PdfDocument {
    type V = DocumentModel;

    open spec fn view(&self) -> DocumentModel {
        DocumentModel {
            version: self.version@,
            trailer: self.trailer@,
            objects: self.objects@,
            max_id: self.max_id,
        }
    }
}

/// What holds of the model of every document: the objects stand in
/// ascending order of identifier, and no dictionary among them has two
/// entries of one name.
pub open spec fn well_formed(d: DocumentModel) -> bool {
    &&& ascending(d.objects)
    &&& d.objects.len() <= usize::MAX
    &&& forall|i: int|
        0 <= i < d.objects.len() && (#[trigger] d.objects[i]).1 is Dictionary ==> unique_names(
            d.objects[i].1->Dictionary_0,
        )
}

/// Every reference in `v` has its target in `t`.
pub open spec fn resolves(t: TableModel, v: Value) -> bool {
    forall|k: int| 0 <= k < value_refs(v).len() ==> table_has(t, #[trigger] value_refs(v)[k])
}

/// No reference of the document dangles: the target of every reference, in the
/// trailer and in each object, is an object of the document.
pub open spec fn self_contained(d: DocumentModel) -> bool {
    &&& resolves(d.objects, Value::Dictionary(d.trailer))
    &&& forall|i: int| 0 <= i < d.objects.len() ==> resolves(d.objects, (#[trigger] d.objects[i]).1)
}

/// The identifier of the catalog, as the trailer gives it.
pub open spec fn root_of(d: DocumentModel) -> Option<ObjectId> {
    match dict_get(d.trailer, ROOT@) {
        Some(Value::Reference(id)) => Some(id),
        _ => None,
    }
}

impl PdfDocument {
    /// An empty document of the given version.
    pub fn with_version(version: &str) -> (doc: PdfDocument)
        ensures
            doc@ == (DocumentModel {
                version: version@,
                trailer: Seq::empty(),
                objects: Seq::empty(),
                max_id: 0,
            }),
    {
        PdfDocument {
            version: version.to_owned(),
            trailer: Dictionary::new(),
            objects: ObjectTable::new(),
            max_id: 0,
        }
    }

    /// Confirms what holds of every document: the objects stand in ascending
    /// order of identifier, and no dictionary among them has two entries of
    /// one name.
    pub fn confirm_well_formed(&self)
        ensures
            well_formed(self@),
    {
        let n = self.objects.len();
        let mut i: usize = 0;
        while i < n
            invariant
                i <= n,
                n == self@.objects.len(),
                forall|j: int|
                    0 <= j < i && (#[trigger] self@.objects[j]).1 is Dictionary ==> unique_names(
                        self@.objects[j].1->Dictionary_0,
                    ),
            decreases n - i,
        {
            match self.objects.object_at(i) {
                Object::Dictionary(d) => {
                    let _ = d.len();
                },
                _ => {},
            }
            i += 1;
        }
    }

    /// Hands out the next free identifier; `None` where the numbers are used up.
    pub fn new_object_id(&mut self) -> (id: Option<ObjectId>)
        ensures
            match id {
                Some(id) => old(self).max_id < u32::MAX && id == (ObjectId {
                    number: (old(self).max_id + 1) as u32,
                    generation: 0,
                }) && final(self)@ == (DocumentModel { max_id: id.number, ..old(self)@ }),
                None => old(self).max_id == u32::MAX && final(self)@ == old(self)@,
            },
    {
        if self.max_id == u32::MAX {
            return None;
        }
        self.max_id = self.max_id + 1;
        Some(ObjectId { number: self.max_id, generation: 0 })
    }

    /// The object under `id`; `MissingObject` where the document has none.
    pub fn get_object(&self, id: ObjectId) -> (r: Result<&Object, Error>)
        ensures
            match r {
                Ok(o) => table_get(self@.objects, id) == Some(o@),
                Err(e) => e == Error::MissingObject && !table_has(self@.objects, id),
            },
    {
        match self.objects.get(id) {
            Some(o) => Ok(o),
            None => Err(Error::MissingObject),
        }
    }

    /// The identifier of the catalog: `MissingKey` where the trailer has no
    /// `Root` entry, `TypeMismatch` where that entry is no reference.
    pub fn root_id(&self) -> (r: Result<ObjectId, Error>)
        ensures
            match r {
                Ok(id) => root_of(self@) == Some(id),
                Err(e) => root_of(self@).is_none() && if dict_has(self@.trailer, ROOT@) {
                    e == Error::TypeMismatch
                } else {
                    e == Error::MissingKey
                },
            },
    {
        match self.trailer.get(&ROOT) {
            Ok(Object::Reference(id)) => Ok(*id),
            Ok(_) => Err(Error::TypeMismatch),
            Err(e) => Err(e),
        }
    }
}

} // verus!
