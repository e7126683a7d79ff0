//! The collections of files that are indexed, and where their data is kept.

use vstd::prelude::*;

use crate::patterns::opt_text;
use crate::text::{law_signed_decimal, same_text, signed_decimal, texts, value_in_base};

verus! {

/// The flag that characters are to be recognised in images.
pub const PDF_INDEX_FLAG_OCR: u32 = 1;

/// The flag that files are not to be indexed.
pub const PDF_INDEX_FLAG_NO_INDEX: u32 = 2;

/// A collection.
#[derive(Debug)]
pub struct CollectionInfo {
    pub id: i64,
    pub books_folder: String,
    pub label: Option<String>,
    pub data_dir: String,
    pub doc_count: i64,
    pub last_indexed: Option<String>,
    pub created_at: String,
}

/// What a collection says.
pub struct CollectionModel {
    pub id: i64,
    pub books_folder: Seq<char>,
    pub label: Option<Seq<char>>,
    pub data_dir: Seq<char>,
    pub doc_count: i64,
    pub last_indexed: Option<Seq<char>>,
    pub created_at: Seq<char>,
}

/// What a collection says.
pub open spec fn collection_model(c: CollectionInfo) -> CollectionModel {
    CollectionModel {
        id: c.id,
        books_folder: c.books_folder@,
        label: opt_text(c.label),
        data_dir: c.data_dir@,
        doc_count: c.doc_count,
        last_indexed: opt_text(c.last_indexed),
        created_at: c.created_at@,
    }
}

/// What collections say.
pub open spec fn collection_models(v: Seq<CollectionInfo>) -> Seq<CollectionModel> {
    v.map_values(|c: CollectionInfo| collection_model(c))
}

/// Whether collections are in the order of their ids, and no two of them are
/// for one folder.
pub open spec fn registry_ok(s: Seq<CollectionModel>) -> bool {
    &&& forall|i: int, j: int|
        0 <= i < j < s.len() ==> (#[trigger] s[i]).id < (#[trigger] s[j]).id
    &&& forall|i: int, j: int|
        0 <= i < j < s.len() ==> (#[trigger] s[i]).books_folder != (#[trigger] s[j]).books_folder
}

/// Whether there is a collection for a folder.
pub open spec fn has_folder(s: Seq<CollectionModel>, folder: Seq<char>) -> bool {
    exists|i: int| 0 <= i < s.len() && (#[trigger] s[i]).books_folder == folder
}

/// Whether there is a collection with an id.
pub open spec fn has_id(s: Seq<CollectionModel>, id: i64) -> bool {
    exists|i: int| 0 <= i < s.len() && (#[trigger] s[i]).id == id
}

/// The id for the next collection: one more than the largest, and one where
/// there is none or where there is no larger number.
pub open spec fn next_id(s: Seq<CollectionModel>) -> i64 {
    if s.len() == 0 || s.last().id == i64::MAX {
        1
    } else {
        (s.last().id + 1) as i64
    }
}

/// A collection for a folder that was not known.
pub open spec fn new_collection(
    id: i64,
    folder: Seq<char>,
    data_dir: Seq<char>,
    now: Seq<char>,
) -> CollectionModel {
    CollectionModel {
        id,
        books_folder: folder,
        label: Some(folder),
        data_dir,
        doc_count: 0,
        last_indexed: None,
        created_at: now,
    }
}

/// How many collections at the front have an id below `id`.
pub open spec fn id_place(s: Seq<CollectionModel>, id: i64) -> nat
    decreases s.len(),
{
    if s.len() == 0 || s[0].id >= id {
        0
    } else {
        1 + id_place(s.drop_first(), id)
    }
}

/// What adding a folder asks for.
#[derive(Debug)]
pub enum AddPlan {
    /// The folder has this collection.
    Known(i64),
    /// The folder gets a collection with this id, whose directory is to be
    /// made first.
    Create(i64),
}

/// Why a request was refused.
#[derive(Debug)]
pub enum RegistryError {
    NoFolder { path: String },
    Insert,
    NotFound(i64),
}

/// The text of an error.
pub open spec fn registry_error_text(e: RegistryError) -> Seq<char> {
    match e {
        RegistryError::NoFolder { path } => "Books folder does not exist: "@ + path@,
        RegistryError::Insert => "Failed to insert collection"@,
        RegistryError::NotFound(id) => "Collection with id "@ + signed_decimal(id as int)
            + " not found"@,
    }
}

impl RegistryError {
    /// The text of the error.
    pub fn message(&self) -> (s: String)
        ensures
            s@ == registry_error_text(*self),
    {
        let mut s = String::new();
        match self {
            RegistryError::NoFolder { path } => {
                s.push_str("Books folder does not exist: ");
                s.push_str(path.as_str());
            },
            RegistryError::Insert => {
                s.push_str("Failed to insert collection");
            },
            RegistryError::NotFound(id) => {
                s.push_str("Collection with id ");
                crate::text::push_signed(&mut s, *id);
                s.push_str(" not found");
            },
        }
        assert(s@ =~= registry_error_text(*self));
        s
    }
}

/// The parts of the path of the data of a collection below a base directory.
pub open spec fn data_parts(base: Seq<char>, id: i64) -> Seq<Seq<char>> {
    seq![base, signed_decimal(id as int)]
}

/// The parts of the path of a file of a collection.
pub open spec fn file_parts(base: Seq<char>, id: i64, name: Seq<char>) -> Seq<Seq<char>> {
    data_parts(base, id) + seq![".pdf_extractor"@, name]
}

fn id_text(id: i64) -> (s: String)
    ensures
        s@ == signed_decimal(id as int),
{
    let mut s = String::new();
    crate::text::push_signed(&mut s, id);
    assert(s@ =~= signed_decimal(id as int));
    s
}

/// The collections below a base directory.
pub struct CollectionRegistry {
    rows: Vec<CollectionInfo>,
    base_dir: String,
}

impl CollectionRegistry {
    /// The collections, in the order of their ids.
    pub closed spec fn collections(self) -> Seq<CollectionModel> {
        collection_models(self.rows@)
    }

    /// The base directory.
    pub closed spec fn base(self) -> Seq<char> {
        self.base_dir@
    }

    /// Whether the collections are in order.
    pub open spec fn wf(self) -> bool {
        registry_ok(self.collections())
    }

    /// A registry without collections.
    pub fn open(base_dir: &str) -> (r: CollectionRegistry)
        ensures
            r.wf(),
            r.collections() == Seq::<CollectionModel>::empty(),
            r.base() == base_dir@,
    {
        let r = CollectionRegistry { rows: Vec::new(), base_dir: base_dir.to_owned() };
        assert(r.collections() =~= Seq::empty());
        r
    }

    /// A registry with given collections, `None` where they are not in order.
    pub fn from_rows(base_dir: &str, rows: Vec<CollectionInfo>) -> (r: Option<CollectionRegistry>)
        ensures
            match r {
                Some(reg) => reg.wf() && reg.collections() == collection_models(rows@) && reg.base()
                    == base_dir@,
                None => !registry_ok(collection_models(rows@)),
            },
    {
        let ghost models = collection_models(rows@);
        let mut i: usize = 0;
        while i < rows.len()
            invariant
                i <= rows@.len(),
                models == collection_models(rows@),
                registry_ok(models.take(i as int)),
            decreases rows@.len() - i,
        {
            let ghost front = models.take(i as int);
            let ghost next = models.take(i + 1);
            let mut k: usize = 0;
            while k < i
                invariant
                    k <= i < rows@.len(),
                    models == collection_models(rows@),
                    forall|m: int|
                        0 <= m < k ==> (#[trigger] models[m]).id < models[i as int].id
                            && models[m].books_folder != models[i as int].books_folder,
                decreases i - k,
            {
                assert(models[k as int] == collection_model(rows@[k as int]));
                assert(models[i as int] == collection_model(rows@[i as int]));
                if rows[k].id >= rows[i].id || same_text(
                    rows[k].books_folder.as_str(),
                    rows[i].books_folder.as_str(),
                ) {
                    return None;
                }
                k += 1;
            }
            assert forall|a: int, b: int| 0 <= a < b < next.len() implies (#[trigger] next[a]).id < (
            #[trigger] next[b]).id && next[a].books_folder != next[b].books_folder by {
                assert(next[a] == models[a] && next[b] == models[b]);
                if b < i {
                    assert(front[a] == models[a] && front[b] == models[b]);
                }
            }
            i += 1;
        }
        assert(models.take(i as int) =~= models);
        Some(CollectionRegistry { rows, base_dir: base_dir.to_owned() })
    }

    /// The base directory.
    pub fn base_dir(&self) -> (s: &str)
        ensures
            s@ == self.base(),
    {
        self.base_dir.as_str()
    }

    fn find_folder(&self, folder: &str) -> (r: Option<usize>)
        ensures
            match r {
                Some(i) => i < self.collections().len() && self.collections()[i as int].books_folder
                    == folder@,
                None => !has_folder(self.collections(), folder@),
            },
    {
        let mut i: usize = 0;
        while i < self.rows.len()
            invariant
                i <= self.rows@.len(),
                forall|k: int| 0 <= k < i ==> (#[trigger] self.collections()[k]).books_folder != folder@,
            decreases self.rows@.len() - i,
        {
            if same_text(self.rows[i].books_folder.as_str(), folder) {
                return Some(i);
            }
            i += 1;
        }
        None
    }

    fn find_id(&self, id: i64) -> (r: Option<usize>)
        ensures
            match r {
                Some(i) => i < self.collections().len() && self.collections()[i as int].id == id,
                None => !has_id(self.collections(), id),
            },
    {
        let mut i: usize = 0;
        while i < self.rows.len()
            invariant
                i <= self.rows@.len(),
                forall|k: int| 0 <= k < i ==> (#[trigger] self.collections()[k]).id != id,
            decreases self.rows@.len() - i,
        {
            if self.rows[i].id == id {
                return Some(i);
            }
            i += 1;
        }
        None
    }

    /// What adding a folder asks for; `None` is a folder that does not exist.
    pub fn add_collection(&self, books_folder: &str, canonical: Option<&str>) -> (r: Result<
        AddPlan,
        RegistryError,
    >)
        requires
            self.wf(),
        ensures
            match (canonical, r) {
                (None, Err(RegistryError::NoFolder { path })) => path@ == books_folder@,
                (Some(c), Ok(AddPlan::Known(id))) => exists|i: int|
                    0 <= i < self.collections().len() && (
                    #[trigger] self.collections()[i]).books_folder == c@ && self.collections()[i].id
                        == id,
                (Some(c), Ok(AddPlan::Create(id))) => !has_folder(self.collections(), c@) && id
                    == next_id(self.collections()),
                _ => false,
            },
    {
        let folder = match canonical {
            None => {
                return Err(RegistryError::NoFolder { path: books_folder.to_owned() });
            },
            Some(c) => c,
        };
        match self.find_folder(folder) {
            Some(i) => {
                assert(self.collections()[i as int].id == self.rows@[i as int].id);
                Ok(AddPlan::Known(self.rows[i].id))
            },
            None => {
                let n = self.rows.len();
                if n == 0 {
                    return Ok(AddPlan::Create(1));
                }
                assert(self.collections().last().id == self.rows@[n - 1].id);
                let top = self.rows[n - 1].id;
                if top == i64::MAX {
                    Ok(AddPlan::Create(1))
                } else {
                    Ok(AddPlan::Create(top + 1))
                }
            },
        }
    }

    /// Enters a collection. It is refused where its id or its folder is taken.
    pub fn insert_collection(&mut self, id: i64, folder: &str, data_dir: &str, now: &str) -> (r:
        Result<i64, RegistryError>)
        requires
            old(self).wf(),
        ensures
            final(self).wf(),
            final(self).base() == old(self).base(),
            match r {
                Ok(n) => {
                    &&& n == id
                    &&& !has_id(old(self).collections(), id)
                    &&& !has_folder(old(self).collections(), folder@)
                    &&& final(self).collections() == old(self).collections().insert(
                        id_place(old(self).collections(), id) as int,
                        new_collection(id, folder@, data_dir@, now@),
                    )
                },
                Err(e) => {
                    &&& e is Insert
                    &&& has_id(old(self).collections(), id) || has_folder(
                        old(self).collections(),
                        folder@,
                    )
                    &&& final(self).collections() == old(self).collections()
                },
            },
    {
        let ghost before = self.collections();
        if let Some(i) = self.find_id(id) {
            assert(has_id(before, id));
            return Err(RegistryError::Insert);
        }
        if let Some(i) = self.find_folder(folder) {
            assert(has_folder(before, folder@));
            return Err(RegistryError::Insert);
        }
        let mut at: usize = 0;
        assert(before.skip(0) =~= before);
        while at < self.rows.len() && self.rows[at].id < id
            invariant
                at <= self.rows@.len(),
                before == self.collections(),
                *self == *old(self),
                id_place(before, id) == at + id_place(before.skip(at as int), id),
                forall|k: int| 0 <= k < at ==> (#[trigger] before[k]).id < id,
            decreases self.rows@.len() - at,
        {
            assert(before[at as int] == collection_model(self.rows@[at as int]));
            assert(before.skip(at as int)[0] == before[at as int]);
            assert(before.skip(at as int).drop_first() =~= before.skip(at + 1));
            at += 1;
        }
        proof {
            if at < before.len() {
                assert(before[at as int] == collection_model(self.rows@[at as int]));
                assert(before.skip(at as int)[0] == before[at as int]);
            }
            assert(id_place(before, id) == at);
        }
        let row = CollectionInfo {
            id,
            books_folder: folder.to_owned(),
            label: Some(folder.to_owned()),
            data_dir: data_dir.to_owned(),
            doc_count: 0,
            last_indexed: None,
            created_at: now.to_owned(),
        };
        let ghost model = collection_model(row);
        self.rows.insert(at, row);
        proof {
            let after = self.collections();
            assert(after =~= before.insert(at as int, model));
            assert forall|a: int, b: int| 0 <= a < b < after.len() implies (
            #[trigger] after[a]).id < (#[trigger] after[b]).id && after[a].books_folder
                != after[b].books_folder by {
                let x = if a < at {
                    a
                } else {
                    a - 1
                };
                let y = if b < at {
                    b
                } else {
                    b - 1
                };
                if a != at {
                    assert(after[a] == before[x]);
                }
                if b != at {
                    assert(after[b] == before[y]);
                }
                if a == at {
                    assert(before[y].id != id);
                    if y > at {
                        assert(before[at as int].id < before[y].id);
                    }
                }
            }
        }
        Ok(id)
    }

    /// Takes a collection out, and gives the directory of its data, which is to
    /// be removed.
    pub fn remove_collection(&mut self, id: i64) -> (r: Option<String>)
        requires
            old(self).wf(),
        ensures
            final(self).wf(),
            final(self).base() == old(self).base(),
            match r {
                Some(dir) => exists|i: int|
                    0 <= i < old(self).collections().len() && (
                    #[trigger] old(self).collections()[i]).id == id && dir@ == old(
                        self).collections()[i].data_dir && final(self).collections() == old(
                        self).collections().remove(i),
                None => !has_id(old(self).collections(), id) && final(self).collections() == old(
                    self).collections(),
            },
    {
        let ghost before = self.collections();
        match self.find_id(id) {
            None => None,
            Some(i) => {
                let row = self.rows.remove(i);
                proof {
                    let after = self.collections();
                    assert(after =~= before.remove(i as int));
                    assert(collection_model(row) == before[i as int]);
                    assert forall|a: int, b: int| 0 <= a < b < after.len() implies (
                    #[trigger] after[a]).id < (#[trigger] after[b]).id && after[a].books_folder
                        != after[b].books_folder by {
                        let x = if a < i {
                            a
                        } else {
                            a + 1
                        };
                        let y = if b < i {
                            b
                        } else {
                            b + 1
                        };
                        assert(after[a] == before[x] && after[b] == before[y]);
                    }
                }
                Some(row.data_dir)
            },
        }
    }

    /// The collections, in the order of their ids.
    pub fn list_collections(&self) -> (v: &Vec<CollectionInfo>)
        ensures
            collection_models(v@) == self.collections(),
    {
        &self.rows
    }

    /// The collection with an id.
    pub fn get_collection(&self, id: i64) -> (r: Result<&CollectionInfo, RegistryError>)
        ensures
            match r {
                Ok(c) => c.id == id && self.collections().contains(collection_model(*c)),
                Err(e) => e == RegistryError::NotFound(id) && !has_id(self.collections(), id),
            },
    {
        match self.find_id(id) {
            Some(i) => {
                assert(self.collections()[i as int] == collection_model(self.rows@[i as int]));
                Ok(&self.rows[i])
            },
            None => Err(RegistryError::NotFound(id)),
        }
    }

    /// Records how many documents a collection has, and that it was indexed at
    /// the time `now`. The number is taken modulo the range of the table.
    pub fn update_index_metadata(&mut self, id: i64, doc_count: u64, now: &str)
        requires
            old(self).wf(),
        ensures
            final(self).wf(),
            final(self).base() == old(self).base(),
            final(self).collections() == old(self).collections().map_values(
                |c: CollectionModel|
                    if c.id == id {
                        CollectionModel {
                            doc_count: doc_count as i64,
                            last_indexed: Some(now@),
                            ..c
                        }
                    } else {
                        c
                    },
            ),
    {
        let ghost before = self.collections();
        if let Some(i) = self.find_id(id) {
            self.rows[i].doc_count = #[verifier::truncate] (doc_count as i64);
            self.rows[i].last_indexed = Some(now.to_owned());
        }
        assert(self.collections() =~= before.map_values(
            |c: CollectionModel|
                if c.id == id {
                    CollectionModel { doc_count: doc_count as i64, last_indexed: Some(now@), ..c }
                } else {
                    c
                },
        ));
    }

    /// The parts of the path of the data of a collection, the base directory
    /// first.
    pub fn data_dir(&self, id: i64) -> (v: Vec<String>)
        ensures
            texts(v@) == data_parts(self.base(), id),
    {
        let mut v: Vec<String> = Vec::new();
        v.push(self.base_dir.as_str().to_owned());
        v.push(id_text(id));
        assert(texts(v@) =~= data_parts(self.base(), id));
        v
    }

    fn file_path(&self, id: i64, name: &str) -> (v: Vec<String>)
        ensures
            texts(v@) == file_parts(self.base(), id, name@),
    {
        let mut v = self.data_dir(id);
        let ghost dir = v@;
        v.push(".pdf_extractor".to_owned());
        v.push(name.to_owned());
        assert(texts(dir).len() == dir.len());
        assert(texts(v@) =~= texts(dir) + seq![".pdf_extractor"@, name@]);
        v
    }

    /// The parts of the path of the table of jobs of a collection.
    pub fn db_path(&self, id: i64) -> (v: Vec<String>)
        ensures
            texts(v@) == file_parts(self.base(), id, "jobs.db"@),
    {
        self.file_path(id, "jobs.db")
    }

    /// The parts of the path of the index of a collection.
    pub fn index_path(&self, id: i64) -> (v: Vec<String>)
        ensures
            texts(v@) == file_parts(self.base(), id, "index"@),
    {
        self.file_path(id, "index")
    }

    /// The parts of the path of the output of a collection.
    pub fn output_path(&self, id: i64) -> (v: Vec<String>)
        ensures
            texts(v@) == file_parts(self.base(), id, "output.jsonl"@),
    {
        self.file_path(id, "output.jsonl")
    }

    /// The parts of the path of the log of a collection.
    pub fn log_path(&self, id: i64) -> (v: Vec<String>)
        ensures
            texts(v@) == file_parts(self.base(), id, "extractor.log"@),
    {
        self.file_path(id, "extractor.log")
    }
}

/// The id for the next collection is not taken, as long as numbers last.
pub proof fn law_next_id_is_free(s: Seq<CollectionModel>)
    requires
        registry_ok(s),
        s.len() > 0 ==> s.last().id < i64::MAX,
    ensures
        !has_id(s, next_id(s)),
{
    if s.len() > 0 {
        assert forall|i: int| 0 <= i < s.len() implies (#[trigger] s[i]).id < next_id(s) by {
            if i < s.len() - 1 {
                assert(s[i].id < s[s.len() - 1].id);
            }
        }
    }
}

/// A new collection gets the id behind the largest, and the first gets one.
pub proof fn law_next_id(s: Seq<CollectionModel>)
    requires
        registry_ok(s),
        s.len() > 0 ==> s.last().id < i64::MAX,
    ensures
        s.len() == 0 ==> next_id(s) == 1,
        s.len() > 0 ==> has_id(s, (next_id(s) - 1) as i64),
        forall|i: int| 0 <= i < s.len() ==> (#[trigger] s[i]).id < next_id(s),
{
    if s.len() > 0 {
        assert(s[s.len() - 1] == s.last());
        assert forall|i: int| 0 <= i < s.len() implies (#[trigger] s[i]).id < next_id(s) by {
            if i < s.len() - 1 {
                assert(s[i].id < s[s.len() - 1].id);
            }
        }
    }
}

/// A new collection has its folder as its label, no documents, and was never
/// indexed; it has the id, the directory and the time that are given.
pub proof fn law_new_collection(id: i64, folder: Seq<char>, data_dir: Seq<char>, now: Seq<char>)
    ensures
        ({
            let c = new_collection(id, folder, data_dir, now);
            &&& c.id == id
            &&& c.books_folder == folder
            &&& c.label == Some(folder)
            &&& c.data_dir == data_dir
            &&& c.doc_count == 0
            &&& c.last_indexed is None
            &&& c.created_at == now
        }),
{
}

/// A new collection stands behind those with smaller ids and before those with
/// larger ones.
pub proof fn law_place_of_id(s: Seq<CollectionModel>, id: i64)
    requires
        registry_ok(s),
    ensures
        id_place(s, id) <= s.len(),
        forall|i: int| 0 <= i < id_place(s, id) ==> (#[trigger] s[i]).id < id,
        forall|i: int| id_place(s, id) <= i < s.len() ==> (#[trigger] s[i]).id >= id,
    decreases s.len(),
{
    if s.len() > 0 {
        if s[0].id >= id {
            assert forall|i: int| 0 <= i < s.len() implies (#[trigger] s[i]).id >= id by {
                if i > 0 {
                    assert(s[0].id < s[i].id);
                }
            }
        } else {
            let d = s.drop_first();
            assert forall|i: int, j: int| 0 <= i < j < d.len() implies (#[trigger] d[i]).id < (
            #[trigger] d[j]).id by {
                assert(s[i + 1].id < s[j + 1].id);
            }
            assert forall|i: int, j: int| 0 <= i < j < d.len() implies (
            #[trigger] d[i]).books_folder != (#[trigger] d[j]).books_folder by {
                assert(s[i + 1].books_folder != s[j + 1].books_folder);
            }
            law_place_of_id(d, id);
            assert forall|i: int| 0 <= i < id_place(s, id) implies (#[trigger] s[i]).id < id by {
                if i > 0 {
                    assert(d[i - 1] == s[i]);
                }
            }
            assert forall|i: int| id_place(s, id) <= i < s.len() implies (#[trigger] s[i]).id
                >= id by {
                assert(d[i - 1] == s[i]);
            }
        }
    }
}

/// The files of a collection stand in a directory of their own, which is named
/// by the id below the base: collections with different ids share none.
pub proof fn law_directories_apart(base: Seq<char>, a: i64, b: i64, name: Seq<char>)
    ensures
        data_parts(base, a).len() == 2,
        data_parts(base, a)[0] == base,
        a >= 0 ==> value_in_base(data_parts(base, a)[1], 10) == a,
        data_parts(base, a) == data_parts(base, b) ==> a == b,
        file_parts(base, a, name).len() == 4,
        file_parts(base, a, name).take(2) == data_parts(base, a),
        file_parts(base, a, name)[2] == ".pdf_extractor"@,
        file_parts(base, a, name)[3] == name,
{
    law_signed_decimal(a as int);
    law_signed_decimal(b as int);
    assert(file_parts(base, a, name).take(2) =~= data_parts(base, a));
    if data_parts(base, a) == data_parts(base, b) {
        assert(data_parts(base, a)[1] == data_parts(base, b)[1]);
    }
}

/// Removing a collection that was just inserted leaves the registry as it was.
pub proof fn law_insert_then_remove(s: Seq<CollectionModel>, c: CollectionModel, i: int)
    requires
        registry_ok(s),
        !has_id(s, c.id),
        0 <= i <= s.len(),
        s.insert(id_place(s, c.id) as int, c)[i].id == c.id,
    ensures
        s.insert(id_place(s, c.id) as int, c).remove(i) == s,
        s.insert(id_place(s, c.id) as int, c)[i] == c,
{
    law_place_of_id(s, c.id);
    let at = id_place(s, c.id) as int;
    let t = s.insert(at, c);
    assert(i == at) by {
        if i < at {
            assert(t[i] == s[i]);
            assert(has_id(s, c.id));
        } else if i > at {
            assert(t[i] == s[i - 1]);
            assert(has_id(s, c.id));
        }
    }
    assert(t.remove(at) =~= s);
}

/// The registry tells the collection of a folder, and inserts none twice: a
/// folder that has a collection is not given another, and an insertion that
/// succeeds adds the collection and changes no other.
pub proof fn law_collections_kept()
    ensures
        forall|r: &mut CollectionRegistry, id: i64, folder: &str, dir: &str, now: &str, n: i64|
            #[trigger] call_ensures(
                CollectionRegistry::insert_collection,
                (r, id, folder, dir, now),
                Ok(n),
            ) && r.wf() ==> {
                &&& n == id
                &&& final(r).collections().len() == r.collections().len() + 1
                &&& has_id(final(r).collections(), id)
                &&& has_folder(final(r).collections(), folder@)
                &&& forall|c: CollectionModel| #[trigger]
                    r.collections().contains(c) ==> final(r).collections().contains(c)
            },
{
    assert forall|r: &mut CollectionRegistry, id: i64, folder: &str, dir: &str, now: &str, n: i64|
        #[trigger] call_ensures(
            CollectionRegistry::insert_collection,
            (r, id, folder, dir, now),
            Ok(n),
        ) && r.wf() implies {
        &&& n == id
        &&& final(r).collections().len() == r.collections().len() + 1
        &&& has_id(final(r).collections(), id)
        &&& has_folder(final(r).collections(), folder@)
        &&& forall|c: CollectionModel| #[trigger]
            r.collections().contains(c) ==> final(r).collections().contains(c)
    } by {
        let s = r.collections();
        law_place_of_id(s, id);
        let at = id_place(s, id) as int;
        let t = final(r).collections();
        assert(t[at].id == id && t[at].books_folder == folder@);
        assert forall|c: CollectionModel| #[trigger] s.contains(c) implies t.contains(c) by {
            let k = choose|k: int| 0 <= k < s.len() && s[k] == c;
            if k < at {
                assert(t[k] == c);
            } else {
                assert(t[k + 1] == c);
            }
        }
    }
}

} // verus!
