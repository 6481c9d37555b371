//! The chunk store and credential vault: filename-indexed, content-chained
//! storage of byte payloads, plus user registration and authentication.

use vstd::prelude::*;
use vstd::utf8::encode_utf8;
use vstd::slice::{slice_subrange, slice_to_vec};
use std::collections::hash_map::DefaultHasher;
use std::hash::Hasher;
use vstd::std_specs::hash::DefaultHasherAdditionalSpecFns;
use crate::errors::DatabaseError;
use crate::user::{User, bcrypt_verify_of};
use crate::hasher::{fingerprint, fingerprint_of};
use crate::chunker::{chunk_seq, chain_id, chain_ids, lemma_chunk_seq_flatten, lemma_chain_ids_push,
    lemma_chain_ids_len};
use crate::numfmt::{decimal_chars, u64_to_decimal};

verus! {

/// One content-addressed cell: a piece of a payload together with its
/// content hash and the chain identifiers binding it to its neighbours.
#[derive(Debug)]
pub struct BeeCell {
    pub id: String,
    pub data: Vec<u8>,
    pub hash: String,
    pub previous_id: String,
    pub next_id: String,
}

/// A fixed-capacity ordered group of cells.
#[derive(Debug)]
pub struct Frame {
    pub id: String,
    pub beecells: Vec<BeeCell>,
    pub previous_id: String,
    pub next_id: String,
}

/// The ordered group of frames holding one stored payload.
#[derive(Debug)]
pub struct Cube {
    pub id: String,
    pub frames: Vec<Frame>,
}

/// A plain record describing one stored file and its chain neighbours,
/// as handed to and from the surrounding program.
#[derive(Debug, Clone, Hash)]
pub struct File {
    pub filename: String,
    pub beeid: String,
    pub data: Vec<u8>,
    pub previous_beecell_id: String,
    pub next_beecell_id: String,
}

impl File {
    /// Builds a record from its parts.
    pub fn new(
        filename: String,
        beeid: String,
        data: Vec<u8>,
        previous_beecell_id: String,
        next_beecell_id: String,
    ) -> (r: File)
        ensures
            r.filename == filename,
            r.beeid == beeid,
            r.data == data,
            r.previous_beecell_id == previous_beecell_id,
            r.next_beecell_id == next_beecell_id,
    {
        File { filename, beeid, data, previous_beecell_id, next_beecell_id }
    }
}

impl Default for File {
    /// An empty record.
    fn default() -> (r: File)
        ensures
            r.filename@ == Seq::<char>::empty(),
            r.beeid@ == Seq::<char>::empty(),
            r.data@ == Seq::<u8>::empty(),
            r.previous_beecell_id@ == Seq::<char>::empty(),
            r.next_beecell_id@ == Seq::<char>::empty(),
    {
        File {
            filename: String::new(),
            beeid: String::new(),
            data: Vec::new(),
            previous_beecell_id: String::new(),
            next_beecell_id: String::new(),
        }
    }
}

impl PartialEq for File {
    /// Records are equal when everything but the stable identifier
    /// matches; the identifier is derived and not compared.
    fn eq(&self, other: &File) -> (r: bool) {
        let filename_eq = self.filename == other.filename;
        let data_eq = self.data == other.data;
        let prev_eq = self.previous_beecell_id == other.previous_beecell_id;
        let next_eq = self.next_beecell_id == other.next_beecell_id;
        proof {
            if data_eq {
                assert(self.data@ =~= other.data@);
            }
            if self.data@ == other.data@ {
                assert(forall|i: int|
                    0 <= i < self.data@.len() ==> self.data@[i] == other.data@[i]);
            }
        }
        filename_eq && data_eq && prev_eq && next_eq
    }
}

impl vstd::std_specs::cmp::PartialEqSpecImpl for File {
    open spec fn obeys_eq_spec() -> bool {
        true
    }

    open spec fn eq_spec(&self, other: &File) -> bool {
        self.filename@ == other.filename@ && self.data@ == other.data@
            && self.previous_beecell_id@ == other.previous_beecell_id@ && self.next_beecell_id@
            == other.next_beecell_id@
    }
}

impl Eq for File {

}

/// The data of each cell of a frame, in order.
pub open spec fn frame_cell_data(f: Frame) -> Seq<Seq<u8>> {
    f.beecells@.map_values(|c: BeeCell| c.data@)
}

/// The data of each cell of a cube, frames in order.
pub open spec fn cube_cell_data(c: Cube) -> Seq<Seq<u8>> {
    c.frames@.map_values(|f: Frame| frame_cell_data(f)).flatten()
}

/// The identifier of each cell of a cube, frames in order.
pub open spec fn cube_cell_ids(c: Cube) -> Seq<Seq<char>> {
    c.frames@.map_values(|f: Frame| f.beecells@.map_values(|cell: BeeCell| cell.id@)).flatten()
}

/// The identifier of the cube holding a file's content.
pub open spec fn cube_id_chars(name: Seq<char>) -> Seq<char> {
    "cube:"@ + name
}

/// The identifier of the frame at a given position.
pub open spec fn frame_id_chars(i: int) -> Seq<char> {
    "frame"@ + decimal_chars(i as u64)
}

/// Distinct filenames give distinct cube identifiers.
pub proof fn lemma_cube_id_injective(n1: Seq<char>, n2: Seq<char>)
    requires
        cube_id_chars(n1) == cube_id_chars(n2),
    ensures
        n1 == n2,
{
    let p = "cube:"@;
    assert((p + n1).skip(p.len() as int) =~= n1);
    assert((p + n2).skip(p.len() as int) =~= n2);
}

/// Renders the identifier of the frame at position `i`.
fn frame_id_string(i: u64) -> (r: String)
    ensures
        r@ == "frame"@ + decimal_chars(i),
{
    let mut s = String::from_str("frame");
    let d = u64_to_decimal(i);
    s.append(d.as_str());
    s
}

/// Renders the identifier of the cube holding a file's content.
fn cube_id_string(filename: &str) -> (r: String)
    ensures
        r@ == cube_id_chars(filename@),
{
    let mut s = String::from_str("cube:");
    s.append(filename);
    s
}

/// The value stored under a filename in the index, first match first.
pub open spec fn lookup_link(links: Seq<(String, Vec<String>)>, name: Seq<char>) -> Option<
    Vec<String>,
>
    decreases links.len(),
{
    if links.len() == 0 {
        None
    } else if links[0].0@ == name {
        Some(links[0].1)
    } else {
        lookup_link(links.drop_first(), name)
    }
}

/// The cube stored under an identifier, first match first.
pub open spec fn lookup_cube(cubes: Seq<(String, Cube)>, id: Seq<char>) -> Option<Cube>
    decreases cubes.len(),
{
    if cubes.len() == 0 {
        None
    } else if cubes[0].0@ == id {
        Some(cubes[0].1)
    } else {
        lookup_cube(cubes.drop_first(), id)
    }
}

/// The record stored under a username, first match first.
pub open spec fn lookup_user(users: Seq<User>, name: Seq<char>) -> Option<User>
    decreases users.len(),
{
    if users.len() == 0 {
        None
    } else if users[0]@.username == name {
        Some(users[0])
    } else {
        lookup_user(users.drop_first(), name)
    }
}

pub proof fn lemma_lookup_link_iff(links: Seq<(String, Vec<String>)>, name: Seq<char>)
    ensures
        lookup_link(links, name) is Some <==> exists|k: int|
            0 <= k < links.len() && (#[trigger] links[k]).0@ == name,
    decreases links.len(),
{
    if links.len() > 0 {
        lemma_lookup_link_iff(links.drop_first(), name);
        if links[0].0@ == name {
        } else if lookup_link(links.drop_first(), name) is Some {
            let k = choose|k: int|
                0 <= k < links.drop_first().len() && (#[trigger] links.drop_first()[k]).0@ == name;
            assert(links[k + 1].0@ == name);
        } else {
            if exists|k: int| 0 <= k < links.len() && (#[trigger] links[k]).0@ == name {
                let k = choose|k: int| 0 <= k < links.len() && (#[trigger] links[k]).0@ == name;
                assert(links.drop_first()[k - 1].0@ == name);
            }
        }
    }
}

pub proof fn lemma_lookup_link_found(links: Seq<(String, Vec<String>)>, i: int, name: Seq<char>)
    requires
        0 <= i < links.len(),
        links[i].0@ == name,
        forall|k: int| 0 <= k < i ==> (#[trigger] links[k]).0@ != name,
    ensures
        lookup_link(links, name) == Some(links[i].1),
    decreases i,
{
    if i > 0 {
        lemma_lookup_link_found(links.drop_first(), i - 1, name);
    }
}

pub proof fn lemma_lookup_link_push(
    links: Seq<(String, Vec<String>)>,
    p: (String, Vec<String>),
    name: Seq<char>,
)
    ensures
        lookup_link(links.push(p), name) == (if lookup_link(links, name) is Some {
            lookup_link(links, name)
        } else if p.0@ == name {
            Some(p.1)
        } else {
            None::<Vec<String>>
        }),
    decreases links.len(),
{
    if links.len() == 0 {
        assert(links.push(p) =~= seq![p]);
        assert(links.push(p)[0] == p);
        assert(links.push(p).drop_first() =~= Seq::<(String, Vec<String>)>::empty());
        assert(lookup_link(links, name) is None);
        if p.0@ == name {
            assert(lookup_link(links.push(p), name) == Some(p.1));
        } else {
            assert(lookup_link(links.push(p), name) == lookup_link(
                links.push(p).drop_first(),
                name,
            ));
            assert(lookup_link(links.push(p), name) is None);
        }
    } else {
        assert(links.push(p)[0] == links[0]);
        assert(links.push(p).drop_first() =~= links.drop_first().push(p));
        lemma_lookup_link_push(links.drop_first(), p, name);
        if links[0].0@ == name {
            assert(lookup_link(links, name) == Some(links[0].1));
            assert(lookup_link(links.push(p), name) == Some(links[0].1));
        } else {
            assert(lookup_link(links.push(p), name) == lookup_link(
                links.drop_first().push(p),
                name,
            ));
            assert(lookup_link(links, name) == lookup_link(links.drop_first(), name));
        }
    }
}

pub proof fn lemma_lookup_link_update(
    links: Seq<(String, Vec<String>)>,
    i: int,
    p: (String, Vec<String>),
    name: Seq<char>,
)
    requires
        0 <= i < links.len(),
        links[i].0@ == p.0@,
        forall|k: int| 0 <= k < i ==> (#[trigger] links[k]).0@ != p.0@,
    ensures
        lookup_link(links.update(i, p), name) == (if p.0@ == name {
            Some(p.1)
        } else {
            lookup_link(links, name)
        }),
    decreases i,
{
    if i == 0 {
        assert(links.update(0, p)[0] == p);
        assert(links.update(0, p).drop_first() =~= links.drop_first());
    } else {
        assert(links.update(i, p)[0] == links[0]);
        assert(links.update(i, p).drop_first() =~= links.drop_first().update(i - 1, p));
        lemma_lookup_link_update(links.drop_first(), i - 1, p, name);
    }
}

pub proof fn lemma_lookup_link_remove(links: Seq<(String, Vec<String>)>, i: int, name: Seq<char>)
    requires
        0 <= i < links.len(),
        forall|k: int, l: int|
            0 <= k < l < links.len() ==> (#[trigger] links[k]).0@ != (#[trigger] links[l]).0@,
    ensures
        lookup_link(links.remove(i), name) == (if links[i].0@ == name {
            None::<Vec<String>>
        } else {
            lookup_link(links, name)
        }),
    decreases i,
{
    if i == 0 {
        assert(links.remove(0) =~= links.drop_first());
        if links[0].0@ == name {
            lemma_lookup_link_iff(links.drop_first(), name);
            if lookup_link(links.drop_first(), name) is Some {
                let k = choose|k: int|
                    0 <= k < links.drop_first().len() && (#[trigger] links.drop_first()[k]).0@
                        == name;
                assert(links[k + 1].0@ == name);
            }
        }
    } else {
        assert(links.remove(i)[0] == links[0]);
        assert(links.remove(i).drop_first() =~= links.drop_first().remove(i - 1));
        lemma_lookup_link_remove(links.drop_first(), i - 1, name);
    }
}

pub proof fn lemma_lookup_cube_iff(cubes: Seq<(String, Cube)>, id: Seq<char>)
    ensures
        lookup_cube(cubes, id) is Some <==> exists|k: int|
            0 <= k < cubes.len() && (#[trigger] cubes[k]).0@ == id,
    decreases cubes.len(),
{
    if cubes.len() > 0 {
        lemma_lookup_cube_iff(cubes.drop_first(), id);
        if cubes[0].0@ == id {
        } else if lookup_cube(cubes.drop_first(), id) is Some {
            let k = choose|k: int|
                0 <= k < cubes.drop_first().len() && (#[trigger] cubes.drop_first()[k]).0@ == id;
            assert(cubes[k + 1].0@ == id);
        } else {
            if exists|k: int| 0 <= k < cubes.len() && (#[trigger] cubes[k]).0@ == id {
                let k = choose|k: int| 0 <= k < cubes.len() && (#[trigger] cubes[k]).0@ == id;
                assert(cubes.drop_first()[k - 1].0@ == id);
            }
        }
    }
}

pub proof fn lemma_lookup_cube_found(cubes: Seq<(String, Cube)>, i: int, id: Seq<char>)
    requires
        0 <= i < cubes.len(),
        cubes[i].0@ == id,
        forall|k: int| 0 <= k < i ==> (#[trigger] cubes[k]).0@ != id,
    ensures
        lookup_cube(cubes, id) == Some(cubes[i].1),
    decreases i,
{
    if i > 0 {
        lemma_lookup_cube_found(cubes.drop_first(), i - 1, id);
    }
}

pub proof fn lemma_lookup_cube_push(cubes: Seq<(String, Cube)>, p: (String, Cube), id: Seq<char>)
    ensures
        lookup_cube(cubes.push(p), id) == (if lookup_cube(cubes, id) is Some {
            lookup_cube(cubes, id)
        } else if p.0@ == id {
            Some(p.1)
        } else {
            None::<Cube>
        }),
    decreases cubes.len(),
{
    if cubes.len() == 0 {
        assert(cubes.push(p) =~= seq![p]);
        assert(cubes.push(p)[0] == p);
        assert(cubes.push(p).drop_first() =~= Seq::<(String, Cube)>::empty());
        assert(lookup_cube(cubes, id) is None);
        if p.0@ == id {
            assert(lookup_cube(cubes.push(p), id) == Some(p.1));
        } else {
            assert(lookup_cube(cubes.push(p), id) == lookup_cube(
                cubes.push(p).drop_first(),
                id,
            ));
            assert(lookup_cube(cubes.push(p), id) is None);
        }
    } else {
        assert(cubes.push(p)[0] == cubes[0]);
        assert(cubes.push(p).drop_first() =~= cubes.drop_first().push(p));
        lemma_lookup_cube_push(cubes.drop_first(), p, id);
    }
}

pub proof fn lemma_lookup_cube_update(
    cubes: Seq<(String, Cube)>,
    i: int,
    p: (String, Cube),
    id: Seq<char>,
)
    requires
        0 <= i < cubes.len(),
        cubes[i].0@ == p.0@,
        forall|k: int| 0 <= k < i ==> (#[trigger] cubes[k]).0@ != p.0@,
    ensures
        lookup_cube(cubes.update(i, p), id) == (if p.0@ == id {
            Some(p.1)
        } else {
            lookup_cube(cubes, id)
        }),
    decreases i,
{
    if i == 0 {
        assert(cubes.update(0, p)[0] == p);
        assert(cubes.update(0, p).drop_first() =~= cubes.drop_first());
    } else {
        assert(cubes.update(i, p)[0] == cubes[0]);
        assert(cubes.update(i, p).drop_first() =~= cubes.drop_first().update(i - 1, p));
        lemma_lookup_cube_update(cubes.drop_first(), i - 1, p, id);
    }
}

pub proof fn lemma_lookup_user_iff(users: Seq<User>, name: Seq<char>)
    ensures
        lookup_user(users, name) is Some <==> exists|k: int|
            0 <= k < users.len() && (#[trigger] users[k])@.username == name,
    decreases users.len(),
{
    if users.len() > 0 {
        lemma_lookup_user_iff(users.drop_first(), name);
        if users[0]@.username == name {
        } else if lookup_user(users.drop_first(), name) is Some {
            let k = choose|k: int|
                0 <= k < users.drop_first().len() && (#[trigger] users.drop_first()[k])@.username
                    == name;
            assert(users[k + 1]@.username == name);
        } else {
            if exists|k: int| 0 <= k < users.len() && (#[trigger] users[k])@.username == name {
                let k = choose|k: int|
                    0 <= k < users.len() && (#[trigger] users[k])@.username == name;
                assert(users.drop_first()[k - 1]@.username == name);
            }
        }
    }
}

pub proof fn lemma_lookup_user_found(users: Seq<User>, i: int, name: Seq<char>)
    requires
        0 <= i < users.len(),
        users[i]@.username == name,
        forall|k: int| 0 <= k < i ==> (#[trigger] users[k])@.username != name,
    ensures
        lookup_user(users, name) == Some(users[i]),
    decreases i,
{
    if i > 0 {
        lemma_lookup_user_found(users.drop_first(), i - 1, name);
    }
}

pub proof fn lemma_lookup_user_push(users: Seq<User>, u: User, name: Seq<char>)
    ensures
        lookup_user(users.push(u), name) == (if lookup_user(users, name) is Some {
            lookup_user(users, name)
        } else if u@.username == name {
            Some(u)
        } else {
            None::<User>
        }),
    decreases users.len(),
{
    if users.len() == 0 {
        assert(users.push(u) =~= seq![u]);
        assert(users.push(u)[0] == u);
        assert(users.push(u).drop_first() =~= Seq::<User>::empty());
        assert(lookup_user(users, name) is None);
        if u@.username == name {
            assert(lookup_user(users.push(u), name) == Some(u));
        } else {
            assert(lookup_user(users.push(u), name) == lookup_user(
                users.push(u).drop_first(),
                name,
            ));
            assert(lookup_user(users.push(u), name) is None);
        }
    } else {
        assert(users.push(u)[0] == users[0]);
        assert(users.push(u).drop_first() =~= users.drop_first().push(u));
        lemma_lookup_user_push(users.drop_first(), u, name);
    }
}

pub proof fn lemma_lookup_user_update(users: Seq<User>, i: int, u: User, name: Seq<char>)
    requires
        0 <= i < users.len(),
        users[i]@.username == u@.username,
        forall|k: int| 0 <= k < i ==> (#[trigger] users[k])@.username != u@.username,
    ensures
        lookup_user(users.update(i, u), name) == (if u@.username == name {
            Some(u)
        } else {
            lookup_user(users, name)
        }),
    decreases i,
{
    if i == 0 {
        assert(users.update(0, u)[0] == u);
        assert(users.update(0, u).drop_first() =~= users.drop_first());
    } else {
        assert(users.update(i, u)[0] == users[0]);
        assert(users.update(i, u).drop_first() =~= users.drop_first().update(i - 1, u));
        lemma_lookup_user_update(users.drop_first(), i - 1, u, name);
    }
}

/// Inserting one file's cells and identifiers updates the two models
/// exactly at that filename.
proof fn lemma_models_insert(
    db_old: Database,
    db_new: Database,
    fname: Seq<char>,
    chunks: Seq<Seq<u8>>,
    idsv: Seq<Seq<char>>,
)
    requires
        forall|nm: Seq<char>|
            #[trigger] db_new.file_cells(nm) == (if nm == fname {
                Some(chunks)
            } else {
                db_old.file_cells(nm)
            }) && #[trigger] db_new.file_ids(nm) == (if nm == fname {
                Some(idsv)
            } else {
                db_old.file_ids(nm)
            }),
    ensures
        db_new.files_model() == db_old.files_model().insert(fname, chunks),
        db_new.ids_model() == db_old.ids_model().insert(fname, idsv),
{
    let m1 = db_new.files_model();
    let m2 = db_old.files_model().insert(fname, chunks);
    assert forall|nm: Seq<char>| m1.dom().contains(nm) <==> m2.dom().contains(nm) by {
        assert(db_new.file_cells(nm) == (if nm == fname {
            Some(chunks)
        } else {
            db_old.file_cells(nm)
        }) && db_new.file_ids(nm) == (if nm == fname {
            Some(idsv)
        } else {
            db_old.file_ids(nm)
        }));
    }
    assert forall|nm: Seq<char>| m1.dom().contains(nm) implies m1[nm] == m2[nm] by {
        assert(db_new.file_cells(nm) == (if nm == fname {
            Some(chunks)
        } else {
            db_old.file_cells(nm)
        }) && db_new.file_ids(nm) == (if nm == fname {
            Some(idsv)
        } else {
            db_old.file_ids(nm)
        }));
    }
    assert(m1 =~= m2);
    let n1 = db_new.ids_model();
    let n2 = db_old.ids_model().insert(fname, idsv);
    assert forall|nm: Seq<char>| n1.dom().contains(nm) <==> n2.dom().contains(nm) by {
        assert(db_new.file_cells(nm) == (if nm == fname {
            Some(chunks)
        } else {
            db_old.file_cells(nm)
        }) && db_new.file_ids(nm) == (if nm == fname {
            Some(idsv)
        } else {
            db_old.file_ids(nm)
        }));
    }
    assert forall|nm: Seq<char>| n1.dom().contains(nm) implies n1[nm] == n2[nm] by {
        assert(db_new.file_cells(nm) == (if nm == fname {
            Some(chunks)
        } else {
            db_old.file_cells(nm)
        }) && db_new.file_ids(nm) == (if nm == fname {
            Some(idsv)
        } else {
            db_old.file_ids(nm)
        }));
    }
    assert(n1 =~= n2);
}

/// Round trip: the cells recorded for a stored payload concatenate back
/// to exactly that payload, for every payload and every positive chunk
/// size. With `store_file`'s postcondition (the model maps the filename
/// to `chunk_seq(data, chunk_size)`) and `retrieve_file`'s (the result is
/// the model entry flattened), retrieval after storage returns the
/// payload unchanged.
pub proof fn lemma_store_retrieve_roundtrip(db: Database, name: Seq<char>, data: Seq<u8>)
    requires
        db.wf(),
        db.files_model().dom().contains(name),
        db.files_model()[name] == chunk_seq(data, db.chunk_size as nat),
    ensures
        db.files_model()[name].flatten() == data,
{
    lemma_chunk_seq_flatten(data, db.chunk_size as nat);
}

/// Slicing with in-range cell bounds returns exactly the concatenation
/// of the cells with index in `[i, j)`.
pub proof fn lemma_slice_in_range(cells: Seq<Seq<u8>>, i: int, j: int)
    requires
        0 <= i <= j <= cells.len(),
    ensures
        Database::slice_cells(cells, i, j) == cells.subrange(i, j).flatten(),
{
}

/// Slicing the full cell range returns the same bytes as retrieval: the
/// flattening of all cells.
pub proof fn lemma_slice_full_range(cells: Seq<Seq<u8>>)
    ensures
        Database::slice_cells(cells, 0, cells.len() as int) == cells.flatten(),
{
    assert(cells.subrange(0, cells.len() as int) =~= cells);
}

/// Registration followed by authentication with the registered password
/// returns true. The premises are `register_user`'s postconditions: the
/// record appended for `name` carries a hash that verifies true for the
/// registered password, and lookups find it. The conclusions are what
/// `authenticate_user` promises to answer `Ok(true)` from. A username
/// never registered is reported as `UserNotFound` by
/// `authenticate_user`'s postcondition, never as authenticated.
pub proof fn lemma_authenticate_after_register(
    db_before: Database,
    db_after: Database,
    name: Seq<char>,
    pw: Seq<u8>,
)
    requires
        db_after.users@.len() == db_before.users@.len() + 1,
        db_after.users@.last()@.username == name,
        bcrypt_verify_of(pw, db_after.users@.last()@.password_hash) == Some(true),
        forall|x: Seq<char>|
            #[trigger] lookup_user(db_after.users@, x) == (if x == name {
                Some(db_after.users@.last())
            } else {
                lookup_user(db_before.users@, x)
            }),
    ensures
        lookup_user(db_after.users@, name) is Some,
        bcrypt_verify_of(pw, lookup_user(db_after.users@, name).unwrap()@.password_hash) == Some(
            true,
        ),
{
    assert(lookup_user(db_after.users@, name) == Some(db_after.users@.last()));
}

/// The abstract value of one staged index change.
pub ghost enum ChangeView {
    Store { name: Seq<char>, data: Seq<u8> },
    Delete { name: Seq<char> },
}

/// One staged change to the file index.
enum Change {
    StoreFile { filename: String, data: Vec<u8> },
    DeleteFile { filename: String },
}

impl View for Change {
    type V = ChangeView;

    closed spec fn view(&self) -> ChangeView {
        match self {
            Change::StoreFile { filename, data } => ChangeView::Store {
                name: filename@,
                data: data@,
            },
            Change::DeleteFile { filename } => ChangeView::Delete { name: filename@ },
        }
    }
}

/// What one change does to the store model: a store always replaces the
/// mapping; a delete requires the name to be present.
pub open spec fn apply_change(
    m: Map<Seq<char>, Seq<Seq<u8>>>,
    ch: ChangeView,
    c: nat,
) -> Option<Map<Seq<char>, Seq<Seq<u8>>>> {
    match ch {
        ChangeView::Store { name, data } => Some(m.insert(name, chunk_seq(data, c))),
        ChangeView::Delete { name } => if m.dom().contains(name) {
            Some(m.remove(name))
        } else {
            None
        },
    }
}

/// The effect of a whole list of changes, in order; `None` when any
/// delete names an absent file at its point in the list.
pub open spec fn apply_changes(
    m: Map<Seq<char>, Seq<Seq<u8>>>,
    chs: Seq<ChangeView>,
    c: nat,
) -> Option<Map<Seq<char>, Seq<Seq<u8>>>>
    decreases chs.len(),
{
    if chs.len() == 0 {
        Some(m)
    } else {
        match apply_change(m, chs[0], c) {
            Some(m2) => apply_changes(m2, chs.drop_first(), c),
            None => None,
        }
    }
}

/// Appending one change folds it over the result of the others.
proof fn lemma_apply_changes_snoc(
    m: Map<Seq<char>, Seq<Seq<u8>>>,
    chs: Seq<ChangeView>,
    c: nat,
    ch: ChangeView,
)
    ensures
        apply_changes(m, chs.push(ch), c) == (match apply_changes(m, chs, c) {
            Some(mk) => apply_change(mk, ch, c),
            None => None::<Map<Seq<char>, Seq<Seq<u8>>>>,
        }),
    decreases chs.len(),
{
    if chs.len() == 0 {
        assert(chs.push(ch)[0] == ch);
        assert(chs.push(ch).drop_first() =~= Seq::<ChangeView>::empty());
        match apply_change(m, ch, c) {
            Some(m2) => {
                assert(apply_changes(m2, chs.push(ch).drop_first(), c) == Some(m2));
            },
            None => {},
        }
    } else {
        assert(chs.push(ch)[0] == chs[0]);
        assert(chs.push(ch).drop_first() =~= chs.drop_first().push(ch));
        match apply_change(m, chs[0], c) {
            Some(m1) => {
                lemma_apply_changes_snoc(m1, chs.drop_first(), c, ch);
            },
            None => {},
        }
    }
}

/// A fold over a list of changes splits at any point into a fold over the
/// prefix followed by a fold over the rest.
proof fn lemma_apply_changes_split(
    m: Map<Seq<char>, Seq<Seq<u8>>>,
    chs: Seq<ChangeView>,
    c: nat,
    k: int,
)
    requires
        0 <= k <= chs.len(),
    ensures
        apply_changes(m, chs, c) == (match apply_changes(m, chs.take(k), c) {
            Some(mk) => apply_changes(mk, chs.skip(k), c),
            None => None::<Map<Seq<char>, Seq<Seq<u8>>>>,
        }),
    decreases k,
{
    if k == 0 {
        assert(chs.take(0) =~= Seq::<ChangeView>::empty());
        assert(chs.skip(0) =~= chs);
    } else {
        assert(chs.take(k)[0] == chs[0]);
        assert(chs.take(k).drop_first() =~= chs.drop_first().take(k - 1));
        assert(chs.skip(k) =~= chs.drop_first().skip(k - 1));
        match apply_change(m, chs[0], c) {
            Some(m1) => {
                lemma_apply_changes_split(m1, chs.drop_first(), c, k - 1);
            },
            None => {},
        }
    }
}

/// Finds a name in a plain list of names.
fn name_index(names: &Vec<String>, name: &str) -> (r: Option<usize>)
    ensures
        match r {
            Some(i) => i < names@.len() && names@[i as int]@ == name@,
            None => forall|j: int| 0 <= j < names@.len() ==> (#[trigger] names@[j])@ != name@,
        },
{
    let n = names.len();
    let mut i: usize = 0;
    while i < n
        invariant
            i <= n,
            n == names@.len(),
            forall|j: int| 0 <= j < i ==> (#[trigger] names@[j])@ != name@,
        decreases n - i,
    {
        if crate::strbytes::str_eq(names[i].as_str(), name) {
            return Some(i);
        }
        i += 1;
    }
    None
}

/// A batch of staged index changes, applied atomically by `commit`: the
/// store is either updated by the whole batch or left unchanged.
pub struct Transaction {
    changes: Vec<Change>,
}

impl Transaction {
    /// The staged changes, oldest first.
    pub closed spec fn staged(self) -> Seq<ChangeView> {
        self.changes@.map_values(|ch: Change| ch@)
    }

    /// An empty batch.
    pub fn new() -> (r: Transaction)
        ensures
            r.staged() == Seq::<ChangeView>::empty(),
    {
        let r = Transaction { changes: Vec::new() };
        proof {
            assert(r.staged() =~= Seq::<ChangeView>::empty());
        }
        r
    }

    /// Stages storing a payload under a filename.
    pub fn store_file(&mut self, filename: String, data: Vec<u8>)
        ensures
            final(self).staged() == old(self).staged().push(
                ChangeView::Store { name: filename@, data: data@ },
            ),
    {
        let ghost fname = filename@;
        let ghost d = data@;
        self.changes.push(Change::StoreFile { filename, data });
        proof {
            assert(self.staged() =~= old(self).staged().push(
                ChangeView::Store { name: fname, data: d },
            ));
        }
    }

    /// Stages deleting a filename.
    pub fn delete_file(&mut self, filename: String)
        ensures
            final(self).staged() == old(self).staged().push(
                ChangeView::Delete { name: filename@ },
            ),
    {
        let ghost fname = filename@;
        self.changes.push(Change::DeleteFile { filename });
        proof {
            assert(self.staged() =~= old(self).staged().push(ChangeView::Delete { name: fname }));
        }
    }

    /// Applies the whole batch to the store, atomically: if any staged
    /// delete names a file absent at its point in the batch, nothing is
    /// applied and the store is unchanged; otherwise every change is.
    #[verifier::rlimit(100)]
    pub fn commit(self, database: &mut Database) -> (r: Result<(), DatabaseError>)
        requires
            old(database).wf(),
        ensures
            final(database).wf(),
            ({
                let outcome = apply_changes(
                    old(database).files_model(),
                    self.staged(),
                    old(database).chunk_size as nat,
                );
                match outcome {
                    Some(m2) => r is Ok && final(database).files_model() == m2,
                    None => r is Err && *final(database) == *old(database),
                }
            }),
            final(database).users@ == old(database).users@,
            final(database).chunk_size == old(database).chunk_size,
            final(database).cells_per_frame == old(database).cells_per_frame,
    {
        let ghost c = database.chunk_size as nat;
        let ghost m0 = database.files_model();
        let ghost chs = self.staged();
        let mut sim: Vec<String> = Vec::new();
        let nl = database.file_links.len();
        let mut t: usize = 0;
        while t < nl
            invariant
                t <= nl,
                nl == database.file_links@.len(),
                sim@.len() == t,
                forall|j: int|
                    0 <= j < t ==> (#[trigger] sim@[j])@ == database.file_links@[j].0@,
            decreases nl - t,
        {
            sim.push(database.file_links[t].0.clone());
            t += 1;
        }
        proof {
            assert forall|x: Seq<char>| m0.dom().contains(x) <==> exists|j: int|
                0 <= j < sim@.len() && (#[trigger] sim@[j])@ == x by {
                lemma_lookup_link_iff(database.file_links@, x);
                if m0.dom().contains(x) {
                    let k0 = choose|k0: int|
                        0 <= k0 < database.file_links@.len() && (
                        #[trigger] database.file_links@[k0]).0@ == x;
                    assert(sim@[k0]@ == x);
                }
                if exists|j: int| 0 <= j < sim@.len() && (#[trigger] sim@[j])@ == x {
                    let j = choose|j: int| 0 <= j < sim@.len() && (#[trigger] sim@[j])@ == x;
                    assert(database.file_links@[j].0@ == x);
                    assert forall|k0: int| 0 <= k0 < j implies (
                    #[trigger] database.file_links@[k0]).0@ != x by {
                        assert(database.file_links@[k0].0@ != database.file_links@[j].0@);
                    }
                    lemma_lookup_link_found(database.file_links@, j, x);
                    assert(database.file_cells(x) is Some);
                }
            }
            assert forall|a: int, b: int| 0 <= a < b < sim@.len() implies (#[trigger] sim@[a])@
                != (#[trigger] sim@[b])@ by {
                assert(database.file_links@[a].0@ != database.file_links@[b].0@);
            }
        }
        let ghost mut mk = m0;
        let n = self.changes.len();
        let mut k: usize = 0;
        proof {
            assert(chs.take(0) =~= Seq::<ChangeView>::empty());
        }
        while k < n
            invariant
                k <= n,
                n == self.changes@.len(),
                chs == self.changes@.map_values(|ch: Change| ch@),
                c == old(database).chunk_size as nat,
                m0 == old(database).files_model(),
                *database == *old(database),
                database.wf(),
                apply_changes(m0, chs.take(k as int), c) == Some(mk),
                forall|a: int, b: int|
                    0 <= a < b < sim@.len() ==> (#[trigger] sim@[a])@ != (#[trigger] sim@[b])@,
                forall|x: Seq<char>|
                    mk.dom().contains(x) <==> exists|j: int|
                        0 <= j < sim@.len() && (#[trigger] sim@[j])@ == x,
            decreases n - k,
        {
            let ghost mk0 = mk;
            let ghost simv0 = sim@;
            match &self.changes[k] {
                Change::StoreFile { filename, data } => {
                    proof {
                        mk = mk0.insert(filename@, chunk_seq(data@, c));
                    }
                    match name_index(&sim, filename.as_str()) {
                        Some(_) => {
                            proof {
                                assert forall|x: Seq<char>| mk.dom().contains(x) <==> exists|
                                    j: int,
                                |
                                    0 <= j < sim@.len() && (#[trigger] sim@[j])@ == x by {
                                    if x == filename@ {
                                    } else {
                                        assert(mk.dom().contains(x) <==> mk0.dom().contains(x));
                                    }
                                }
                            }
                        },
                        None => {
                            sim.push(filename.clone());
                            proof {
                                assert forall|x: Seq<char>| mk.dom().contains(x) <==> exists|
                                    j: int,
                                |
                                    0 <= j < sim@.len() && (#[trigger] sim@[j])@ == x by {
                                    if x == filename@ {
                                        assert(sim@[sim@.len() - 1]@ == x);
                                    } else {
                                        assert(mk.dom().contains(x) <==> mk0.dom().contains(x));
                                        if exists|j: int|
                                            0 <= j < simv0.len() && (#[trigger] simv0[j])@ == x {
                                            let j = choose|j: int|
                                                0 <= j < simv0.len() && (#[trigger] simv0[j])@
                                                    == x;
                                            assert(sim@[j]@ == x);
                                        }
                                        if exists|j: int|
                                            0 <= j < sim@.len() && (#[trigger] sim@[j])@ == x {
                                            let j = choose|j: int|
                                                0 <= j < sim@.len() && (#[trigger] sim@[j])@ == x;
                                            assert(simv0[j]@ == x);
                                        }
                                    }
                                }
                                assert forall|a: int, b: int| 0 <= a < b < sim@.len() implies (
                                #[trigger] sim@[a])@ != (#[trigger] sim@[b])@ by {
                                    if b < sim@.len() - 1 {
                                        assert(simv0[a]@ != simv0[b]@);
                                    } else {
                                        assert(sim@[a]@ == simv0[a]@);
                                    }
                                }
                            }
                        },
                    }
                    proof {
                        assert(chs.take(k + 1) =~= chs.take(k as int).push(chs[k as int]));
                        lemma_apply_changes_snoc(m0, chs.take(k as int), c, chs[k as int]);
                        assert(chs[k as int] == self.changes@[k as int]@);
                        assert(apply_changes(m0, chs.take(k + 1), c) == Some(mk));
                    }
                },
                Change::DeleteFile { filename } => {
                    match name_index(&sim, filename.as_str()) {
                        None => {
                            proof {
                                assert(!mk0.dom().contains(filename@));
                                assert(apply_change(mk0, chs[k as int], c) is None);
                                assert(chs.take(k + 1) =~= chs.take(k as int).push(
                                    chs[k as int],
                                ));
                                lemma_apply_changes_snoc(m0, chs.take(k as int), c, chs[k as int]);
                                assert(apply_changes(m0, chs.take(k + 1), c) is None);
                                lemma_apply_changes_split(m0, chs, c, k + 1);
                                assert(chs.take(k + 1).take(k + 1) =~= chs.take(k + 1));
                                lemma_apply_changes_split(m0, chs.take(k + 1), c, k + 1);
                                assert(apply_changes(m0, chs, c) is None);
                            }
                            return Err(DatabaseError::FileNotFound(filename.clone()));
                        },
                        Some(i) => {
                            proof {
                                assert(sim@[i as int]@ == filename@);
                                assert(mk0.dom().contains(filename@));
                                mk = mk0.remove(filename@);
                            }
                            sim.remove(i);
                            proof {
                                assert(sim@ =~= simv0.remove(i as int));
                                assert forall|x: Seq<char>| mk.dom().contains(x) <==> exists|
                                    j: int,
                                |
                                    0 <= j < sim@.len() && (#[trigger] sim@[j])@ == x by {
                                    if x == filename@ {
                                        if exists|j: int|
                                            0 <= j < sim@.len() && (#[trigger] sim@[j])@ == x {
                                            let j = choose|j: int|
                                                0 <= j < sim@.len() && (#[trigger] sim@[j])@ == x;
                                            if j < i {
                                                assert(simv0[j]@ == x);
                                                assert(simv0[j]@ != simv0[i as int]@);
                                            } else {
                                                assert(simv0[j + 1]@ == x);
                                                assert(simv0[j + 1]@ != simv0[i as int]@);
                                            }
                                        }
                                    } else {
                                        assert(mk.dom().contains(x) <==> mk0.dom().contains(x));
                                        if exists|j: int|
                                            0 <= j < simv0.len() && (#[trigger] simv0[j])@ == x {
                                            let j = choose|j: int|
                                                0 <= j < simv0.len() && (#[trigger] simv0[j])@
                                                    == x;
                                            if j < i {
                                                assert(sim@[j]@ == x);
                                            } else {
                                                assert(j != i);
                                                assert(sim@[j - 1]@ == x);
                                            }
                                        }
                                        if exists|j: int|
                                            0 <= j < sim@.len() && (#[trigger] sim@[j])@ == x {
                                            let j = choose|j: int|
                                                0 <= j < sim@.len() && (#[trigger] sim@[j])@ == x;
                                            if j < i {
                                                assert(simv0[j]@ == x);
                                            } else {
                                                assert(simv0[j + 1]@ == x);
                                            }
                                        }
                                    }
                                }
                                assert forall|a: int, b: int| 0 <= a < b < sim@.len() implies (
                                #[trigger] sim@[a])@ != (#[trigger] sim@[b])@ by {
                                    let a0: int = if a < i {
                                        a
                                    } else {
                                        a + 1
                                    };
                                    let b0: int = if b < i {
                                        b
                                    } else {
                                        b + 1
                                    };
                                    assert(sim@[a]@ == simv0[a0]@);
                                    assert(sim@[b]@ == simv0[b0]@);
                                    assert(simv0[a0]@ != simv0[b0]@);
                                }
                                assert(chs.take(k + 1) =~= chs.take(k as int).push(
                                    chs[k as int],
                                ));
                                lemma_apply_changes_snoc(m0, chs.take(k as int), c, chs[k as int]);
                                assert(apply_changes(m0, chs.take(k + 1), c) == Some(mk));
                            }
                        },
                    }
                },
            }
            k += 1;
        }
        proof {
            assert(chs.take(n as int) =~= chs);
        }
        let ghost m_final = mk;
        let mut k2: usize = 0;
        proof {
            assert(chs.skip(0) =~= chs);
            lemma_apply_changes_split(m0, chs, c, 0);
        }
        while k2 < n
            invariant
                k2 <= n,
                n == self.changes@.len(),
                chs == self.changes@.map_values(|ch: Change| ch@),
                c == old(database).chunk_size as nat,
                database.wf(),
                apply_changes(database.files_model(), chs.skip(k2 as int), c) == Some(m_final),
                database.users@ == old(database).users@,
                database.chunk_size == old(database).chunk_size,
                database.cells_per_frame == old(database).cells_per_frame,
            decreases n - k2,
        {
            let ghost mcur = database.files_model();
            proof {
                assert(chs.skip(k2 as int)[0] == chs[k2 as int]);
                assert(chs.skip(k2 as int).drop_first() =~= chs.skip(k2 + 1));
            }
            match &self.changes[k2] {
                Change::StoreFile { filename, data } => {
                    let fname2 = filename.clone();
                    let data2 = slice_to_vec(data.as_slice());
                    match database.store_file(fname2, data2) {
                        Ok(()) => {},
                        Err(_) => {},
                    }
                    proof {
                        assert(database.files_model() == mcur.insert(
                            filename@,
                            chunk_seq(data@, c),
                        ));
                        assert(apply_change(mcur, chs[k2 as int], c) == Some(
                            database.files_model(),
                        ));
                    }
                },
                Change::DeleteFile { filename } => {
                    proof {
                        assert(apply_change(mcur, chs[k2 as int], c) is Some);
                        assert(mcur.dom().contains(filename@));
                    }
                    match database.delete_file(filename.clone()) {
                        Ok(()) => {},
                        Err(_) => {
                            proof {
                                assert(false);
                            }
                            return Err(DatabaseError::LockFailed);
                        },
                    }
                    proof {
                        assert(database.files_model() == mcur.remove(filename@));
                        assert(apply_change(mcur, chs[k2 as int], c) == Some(
                            database.files_model(),
                        ));
                    }
                },
            }
            k2 += 1;
        }
        proof {
            assert(chs.skip(n as int) =~= Seq::<ChangeView>::empty());
        }
        Ok(())
    }
}

/// The chunk store and vault state: the file index, the cubes it
/// references, the registered users and the chunking configuration.
#[derive(Debug)]
pub struct Database {
    pub file_links: Vec<(String, Vec<String>)>,
    pub cubes: Vec<(String, Cube)>,
    pub users: Vec<User>,
    pub chunk_size: usize,
    pub cells_per_frame: usize,
}

impl Database {
    /// Well-formedness: positive chunking limits, unique index keys,
    /// unique cube identifiers, unique usernames, and every index entry
    /// pointing at exactly the cube that holds its file.
    pub open spec fn wf(self) -> bool {
        &&& 0 < self.chunk_size
        &&& 0 < self.cells_per_frame
        &&& forall|k: int, l: int|
            0 <= k < l < self.file_links@.len() ==> (#[trigger] self.file_links@[k]).0@ != (
            #[trigger] self.file_links@[l]).0@
        &&& forall|k: int, l: int|
            0 <= k < l < self.cubes@.len() ==> (#[trigger] self.cubes@[k]).0@ != (
            #[trigger] self.cubes@[l]).0@
        &&& forall|k: int, l: int|
            0 <= k < l < self.users@.len() ==> (#[trigger] self.users@[k])@.username != (
            #[trigger] self.users@[l])@.username
        &&& forall|k: int|
            0 <= k < self.file_links@.len() ==> {
                let link = #[trigger] self.file_links@[k];
                &&& link.1@.len() == 1
                &&& link.1@[0]@ == cube_id_chars(link.0@)
                &&& lookup_cube(self.cubes@, cube_id_chars(link.0@)) is Some
            }
    }

    /// The cell payloads of the file stored under `name`, if the index
    /// has the name and its cube is present.
    pub open spec fn file_cells(self, name: Seq<char>) -> Option<Seq<Seq<u8>>> {
        match lookup_link(self.file_links@, name) {
            Some(ids) => if ids@.len() == 1 {
                match lookup_cube(self.cubes@, ids@[0]@) {
                    Some(cube) => Some(cube_cell_data(cube)),
                    None => None,
                }
            } else {
                None
            },
            None => None,
        }
    }

    /// The cell identifiers of the file stored under `name`.
    pub open spec fn file_ids(self, name: Seq<char>) -> Option<Seq<Seq<char>>> {
        match lookup_link(self.file_links@, name) {
            Some(ids) => if ids@.len() == 1 {
                match lookup_cube(self.cubes@, ids@[0]@) {
                    Some(cube) => Some(cube_cell_ids(cube)),
                    None => None,
                }
            } else {
                None
            },
            None => None,
        }
    }

    /// The whole store as a map from filename to cell payloads.
    pub open spec fn files_model(self) -> Map<Seq<char>, Seq<Seq<u8>>> {
        Map::new(
            |name: Seq<char>| self.file_cells(name) is Some,
            |name: Seq<char>| self.file_cells(name).unwrap(),
        )
    }

    /// The whole store as a map from filename to cell identifiers.
    pub open spec fn ids_model(self) -> Map<Seq<char>, Seq<Seq<char>>> {
        Map::new(
            |name: Seq<char>| self.file_ids(name) is Some,
            |name: Seq<char>| self.file_ids(name).unwrap(),
        )
    }

    /// An empty store with the default chunking limits.
    pub fn new() -> (r: Database)
        ensures
            r.wf(),
            r.files_model() == Map::<Seq<char>, Seq<Seq<u8>>>::empty(),
            r.users@ == Seq::<User>::empty(),
            r.chunk_size == 150_000_000usize,
            r.cells_per_frame == 100usize,
    {
        let r = Database {
            file_links: Vec::new(),
            cubes: Vec::new(),
            users: Vec::new(),
            chunk_size: 150_000_000,
            cells_per_frame: 100,
        };
        proof {
            assert(r.files_model() =~= Map::<Seq<char>, Seq<Seq<u8>>>::empty());
        }
        r
    }

    /// An empty store with the given chunking limits; both must be
    /// positive.
    pub fn with_config(chunk_size: usize, cells_per_frame: usize) -> (r: Result<
        Database,
        DatabaseError,
    >)
        ensures
            chunk_size == 0 || cells_per_frame == 0 <==> r matches Err(DatabaseError::InvalidArgument),
            chunk_size > 0 && cells_per_frame > 0 ==> r is Ok,
            r matches Ok(db) ==> {
                &&& db.wf()
                &&& db.files_model() == Map::<Seq<char>, Seq<Seq<u8>>>::empty()
                &&& db.users@ == Seq::<User>::empty()
                &&& db.chunk_size == chunk_size
                &&& db.cells_per_frame == cells_per_frame
            },
    {
        if chunk_size == 0 || cells_per_frame == 0 {
            return Err(DatabaseError::InvalidArgument);
        }
        let r = Database {
            file_links: Vec::new(),
            cubes: Vec::new(),
            users: Vec::new(),
            chunk_size,
            cells_per_frame,
        };
        proof {
            assert(r.files_model() =~= Map::<Seq<char>, Seq<Seq<u8>>>::empty());
        }
        Ok(r)
    }

    /// Finds the index position of a filename in the file index.
    fn find_link_index(&self, filename: &str) -> (r: Option<usize>)
        ensures
            match r {
                Some(i) => i < self.file_links@.len() && self.file_links@[i as int].0@ == filename@
                    && lookup_link(self.file_links@, filename@) == Some(
                    self.file_links@[i as int].1,
                ) && forall|k: int|
                    0 <= k < i ==> (#[trigger] self.file_links@[k]).0@ != filename@,
                None => lookup_link(self.file_links@, filename@) is None,
            },
    {
        let n = self.file_links.len();
        let mut i: usize = 0;
        while i < n
            invariant
                i <= n,
                n == self.file_links@.len(),
                forall|k: int| 0 <= k < i ==> (#[trigger] self.file_links@[k]).0@ != filename@,
            decreases n - i,
        {
            if crate::strbytes::str_eq(self.file_links[i].0.as_str(), filename) {
                proof {
                    lemma_lookup_link_found(self.file_links@, i as int, filename@);
                }
                return Some(i);
            }
            i += 1;
        }
        proof {
            lemma_lookup_link_iff(self.file_links@, filename@);
        }
        None
    }

    /// Finds the index position of a cube identifier.
    fn find_cube_index(&self, id: &str) -> (r: Option<usize>)
        ensures
            match r {
                Some(i) => i < self.cubes@.len() && self.cubes@[i as int].0@ == id@ && lookup_cube(
                    self.cubes@,
                    id@,
                ) == Some(self.cubes@[i as int].1) && forall|k: int|
                    0 <= k < i ==> (#[trigger] self.cubes@[k]).0@ != id@,
                None => lookup_cube(self.cubes@, id@) is None,
            },
    {
        let n = self.cubes.len();
        let mut i: usize = 0;
        while i < n
            invariant
                i <= n,
                n == self.cubes@.len(),
                forall|k: int| 0 <= k < i ==> (#[trigger] self.cubes@[k]).0@ != id@,
            decreases n - i,
        {
            if crate::strbytes::str_eq(self.cubes[i].0.as_str(), id) {
                proof {
                    lemma_lookup_cube_found(self.cubes@, i as int, id@);
                }
                return Some(i);
            }
            i += 1;
        }
        proof {
            lemma_lookup_cube_iff(self.cubes@, id@);
        }
        None
    }

    /// Finds the index position of a username in the vault.
    fn find_user_index(&self, username: &str) -> (r: Option<usize>)
        ensures
            match r {
                Some(i) => i < self.users@.len() && self.users@[i as int]@.username == username@
                    && lookup_user(self.users@, username@) == Some(self.users@[i as int]) && forall|
                    k: int,
                |
                    0 <= k < i ==> (#[trigger] self.users@[k])@.username != username@,
                None => lookup_user(self.users@, username@) is None,
            },
    {
        let n = self.users.len();
        let mut i: usize = 0;
        while i < n
            invariant
                i <= n,
                n == self.users@.len(),
                forall|k: int| 0 <= k < i ==> (#[trigger] self.users@[k])@.username != username@,
            decreases n - i,
        {
            if crate::strbytes::str_eq(self.users[i].username.as_str(), username) {
                proof {
                    lemma_lookup_user_found(self.users@, i as int, username@);
                }
                return Some(i);
            }
            i += 1;
        }
        proof {
            lemma_lookup_user_iff(self.users@, username@);
        }
        None
    }

    /// Splits a payload into cells of at most `chunk_size` bytes. Each
    /// cell records its content fingerprint and the chain identifiers
    /// binding it to its neighbours: its own identifier fingerprints its
    /// predecessor's identifier together with its data.
    #[verifier::rlimit(100)]
    fn split_into_beecells(&self, data: &[u8]) -> (r: Vec<BeeCell>)
        requires
            self.chunk_size > 0,
        ensures
            ({
                let chunks = chunk_seq(data@, self.chunk_size as nat);
                let ids = chain_ids(chunks);
                &&& r@.len() == chunks.len()
                &&& r@.map_values(|cell: BeeCell| cell.data@) == chunks
                &&& r@.map_values(|cell: BeeCell| cell.id@) == ids
                &&& forall|i: int|
                    0 <= i < r@.len() ==> (#[trigger] r@[i]).hash@ == fingerprint_of(chunks[i])
                &&& forall|i: int|
                    0 <= i < r@.len() ==> (#[trigger] r@[i]).previous_id@ == (if i == 0 {
                        Seq::<char>::empty()
                    } else {
                        ids[i - 1]
                    })
                &&& forall|i: int|
                    0 <= i < r@.len() ==> (#[trigger] r@[i]).next_id@ == (if i == r@.len() - 1 {
                        Seq::<char>::empty()
                    } else {
                        ids[i + 1]
                    })
            }),
    {
        let c = self.chunk_size;
        let n = data.len();
        let mut cells: Vec<BeeCell> = Vec::new();
        let mut offset: usize = 0;
        let mut prev: String = String::new();
        proof {
            assert(data@.skip(0) =~= data@);
            assert(cells@.map_values(|cell: BeeCell| cell.data@) =~= Seq::<Seq<u8>>::empty());
            assert(chunk_seq(data@, c as nat) =~= cells@.map_values(|cell: BeeCell| cell.data@)
                + chunk_seq(data@.skip(0), c as nat));
        }
        while offset < n
            invariant
                c == self.chunk_size,
                c > 0,
                n == data@.len(),
                offset <= n,
                chunk_seq(data@, c as nat) == cells@.map_values(|cell: BeeCell| cell.data@)
                    + chunk_seq(data@.skip(offset as int), c as nat),
                cells@.map_values(|cell: BeeCell| cell.id@) == chain_ids(
                    cells@.map_values(|cell: BeeCell| cell.data@),
                ),
                prev@ == (if cells@.len() == 0 {
                    Seq::<char>::empty()
                } else {
                    cells@.map_values(|cell: BeeCell| cell.id@).last()
                }),
                forall|i: int|
                    0 <= i < cells@.len() ==> (#[trigger] cells@[i]).hash@ == fingerprint_of(
                        cells@[i].data@,
                    ),
                forall|i: int|
                    0 < i < cells@.len() ==> (#[trigger] cells@[i]).previous_id@ == cells@[i
                        - 1].id@,
                cells@.len() > 0 ==> cells@[0].previous_id@ == Seq::<char>::empty(),
                forall|i: int|
                    0 <= i < cells@.len() ==> (#[trigger] cells@[i]).next_id@ == Seq::<
                        char,
                    >::empty(),
            decreases n - offset,
        {
            let ghost cells0 = cells@;
            let ghost off0 = offset as int;
            let ghost prev0 = prev@;
            let rest = n - offset;
            let take_n = if rest > c {
                c
            } else {
                rest
            };
            let end = offset + take_n;
            let chunk_slice = slice_subrange(data, offset, end);
            let chunk_vec = slice_to_vec(chunk_slice);
            let hash = fingerprint(chunk_slice);
            let mut input = crate::strbytes::string_to_bytes(prev.as_str());
            input.extend_from_slice(chunk_slice);
            let id = fingerprint(input.as_slice());
            let id_clone = id.clone();
            let cell = BeeCell {
                id,
                data: chunk_vec,
                hash,
                previous_id: prev,
                next_id: String::new(),
            };
            cells.push(cell);
            prev = id_clone;
            offset = end;
            proof {
                let cs = c as nat;
                let chunk = data@.subrange(off0, end as int);
                let rem = data@.skip(off0);
                let datas0 = cells0.map_values(|cell: BeeCell| cell.data@);
                let datas1 = cells@.map_values(|cell: BeeCell| cell.data@);
                assert(input@ =~= encode_utf8(prev0) + chunk);
                assert(datas1 =~= datas0.push(chunk));
                assert(cells@.map_values(|cell: BeeCell| cell.id@) =~= cells0.map_values(
                    |cell: BeeCell| cell.id@,
                ).push(chain_id(prev0, chunk)));
                lemma_chain_ids_push(datas0, chunk);
                lemma_chain_ids_len(datas0);
                if rest <= c {
                    assert(rem =~= chunk);
                    assert(chunk_seq(rem, cs) =~= seq![chunk]);
                    assert(data@.skip(end as int) =~= Seq::<u8>::empty());
                } else {
                    assert(rem.take(c as int) =~= chunk);
                    assert(rem.skip(c as int) =~= data@.skip(end as int));
                    assert(chunk_seq(rem, cs) =~= seq![chunk] + chunk_seq(
                        data@.skip(end as int),
                        cs,
                    ));
                }
                assert(datas0 + chunk_seq(rem, cs) =~= datas1 + chunk_seq(
                    data@.skip(end as int),
                    cs,
                ));
            }
        }
        proof {
            assert(data@.skip(n as int) =~= Seq::<u8>::empty());
            assert(chunk_seq(data@, c as nat) =~= cells@.map_values(|cell: BeeCell| cell.data@));
        }
        let total = cells.len();
        if total > 0 {
            let ghost chunks = chunk_seq(data@, c as nat);
            let ghost ids = chain_ids(chunks);
            let mut i: usize = 0;
            while i + 1 < total
                invariant
                    total == cells@.len(),
                    i < total,
                    cells@.map_values(|cell: BeeCell| cell.data@) == chunks,
                    cells@.map_values(|cell: BeeCell| cell.id@) == ids,
                    forall|k: int|
                        0 <= k < cells@.len() ==> (#[trigger] cells@[k]).hash@ == fingerprint_of(
                            cells@[k].data@,
                        ),
                    forall|k: int|
                        0 < k < cells@.len() ==> (#[trigger] cells@[k]).previous_id@ == cells@[k
                            - 1].id@,
                    cells@[0].previous_id@ == Seq::<char>::empty(),
                    forall|k: int|
                        0 <= k < i ==> (#[trigger] cells@[k]).next_id@ == cells@[k + 1].id@,
                    forall|k: int|
                        i <= k < cells@.len() ==> (#[trigger] cells@[k]).next_id@ == Seq::<
                            char,
                        >::empty(),
                decreases total - i,
            {
                let ghost before = cells@;
                let next_id = cells[i + 1].id.clone();
                let cur_id = cells[i].id.clone();
                let cur_hash = cells[i].hash.clone();
                let cur_prev = cells[i].previous_id.clone();
                let cur_data = slice_to_vec(cells[i].data.as_slice());
                let updated = BeeCell {
                    id: cur_id,
                    data: cur_data,
                    hash: cur_hash,
                    previous_id: cur_prev,
                    next_id,
                };
                cells[i] = updated;
                i += 1;
                proof {
                    assert(cells@ =~= before.update(i - 1, updated));
                    assert(cells@.map_values(|cell: BeeCell| cell.data@) =~= before.map_values(
                        |cell: BeeCell| cell.data@,
                    ));
                    assert(cells@.map_values(|cell: BeeCell| cell.id@) =~= before.map_values(
                        |cell: BeeCell| cell.id@,
                    ));
                }
            }
            proof {
                lemma_chain_ids_len(chunk_seq(data@, c as nat));
                assert forall|k: int| 0 <= k < cells@.len() implies (#[trigger] cells@[k]).id@
                    == chain_ids(chunk_seq(data@, c as nat))[k] && (#[trigger] cells@[k]).data@
                    == chunk_seq(data@, c as nat)[k] by {
                    assert(cells@.map_values(|cell: BeeCell| cell.id@)[k] == cells@[k].id@);
                    assert(cells@.map_values(|cell: BeeCell| cell.data@)[k] == cells@[k].data@);
                }
            }
        }
        cells
    }

    /// Groups cells into frames of at most `cells_per_frame` each, frame
    /// identifiers derived from position.
    fn group_into_frames(&self, beecells: Vec<BeeCell>) -> (r: Vec<Frame>)
        requires
            self.cells_per_frame > 0,
        ensures
            ({
                let pieces = chunk_seq(beecells@, self.cells_per_frame as nat);
                &&& r@.len() == pieces.len()
                &&& r@.map_values(|f: Frame| f.beecells@) == pieces
                &&& forall|i: int|
                    0 <= i < r@.len() ==> (#[trigger] r@[i]).id@ == frame_id_chars(i)
                &&& forall|i: int|
                    0 <= i < r@.len() ==> (#[trigger] r@[i]).previous_id@ == (if i == 0 {
                        Seq::<char>::empty()
                    } else {
                        frame_id_chars(i - 1)
                    })
                &&& forall|i: int|
                    0 <= i < r@.len() ==> (#[trigger] r@[i]).next_id@ == frame_id_chars(i + 1)
            }),
    {
        let cpf = self.cells_per_frame;
        let n0 = beecells.len();
        let ghost orig = beecells@;
        let mut rest = beecells;
        let mut frames: Vec<Frame> = Vec::new();
        proof {
            assert(frames@.map_values(|f: Frame| f.beecells@) =~= Seq::<Seq<BeeCell>>::empty());
            assert(chunk_seq(orig, cpf as nat) =~= frames@.map_values(|f: Frame| f.beecells@)
                + chunk_seq(rest@, cpf as nat));
        }
        while rest.len() > 0
            invariant
                cpf == self.cells_per_frame,
                cpf > 0,
                n0 == orig.len(),
                frames@.len() + rest@.len() <= n0,
                chunk_seq(orig, cpf as nat) == frames@.map_values(|f: Frame| f.beecells@)
                    + chunk_seq(rest@, cpf as nat),
                forall|i: int|
                    0 <= i < frames@.len() ==> (#[trigger] frames@[i]).id@ == frame_id_chars(i),
                forall|i: int|
                    0 <= i < frames@.len() ==> (#[trigger] frames@[i]).previous_id@ == (if i == 0 {
                        Seq::<char>::empty()
                    } else {
                        frame_id_chars(i - 1)
                    }),
                forall|i: int|
                    0 <= i < frames@.len() ==> (#[trigger] frames@[i]).next_id@ == frame_id_chars(
                        i + 1,
                    ),
            decreases rest@.len(),
        {
            let ghost rest0 = rest@;
            let ghost frames0 = frames@;
            let take_n = if rest.len() > cpf {
                cpf
            } else {
                rest.len()
            };
            let tail = rest.split_off(take_n);
            let idx = frames.len() as u64;
            let id = frame_id_string(idx);
            let prev = if idx == 0 {
                String::new()
            } else {
                frame_id_string(idx - 1)
            };
            let next = frame_id_string(idx + 1);
            let frame = Frame { id, beecells: rest, previous_id: prev, next_id: next };
            rest = tail;
            frames.push(frame);
            proof {
                let cs = cpf as nat;
                let piece = rest0.take(take_n as int);
                assert(frame.beecells@ =~= piece);
                assert(frames@.map_values(|f: Frame| f.beecells@) =~= frames0.map_values(
                    |f: Frame| f.beecells@,
                ).push(piece));
                if rest0.len() <= cpf {
                    assert(piece =~= rest0);
                    assert(chunk_seq(rest0, cs) =~= seq![piece]);
                    assert(rest@ =~= Seq::<BeeCell>::empty());
                } else {
                    assert(rest@ =~= rest0.skip(cpf as int));
                    assert(chunk_seq(rest0, cs) =~= seq![piece] + chunk_seq(rest@, cs));
                }
                assert(frames0.map_values(|f: Frame| f.beecells@) + chunk_seq(rest0, cs)
                    =~= frames@.map_values(|f: Frame| f.beecells@) + chunk_seq(rest@, cs));
            }
        }
        proof {
            assert(chunk_seq(rest@, cpf as nat) =~= Seq::<Seq<BeeCell>>::empty());
            assert(chunk_seq(orig, cpf as nat) =~= frames@.map_values(|f: Frame| f.beecells@));
        }
        frames
    }

    /// Wraps an ordered sequence of frames as the cube for one stored
    /// payload, under the given identifier.
    fn group_into_cube(&self, frames: Vec<Frame>, id: String) -> (r: Cube)
        ensures
            r.id == id,
            r.frames == frames,
    {
        Cube { id, frames }
    }

    /// Stores a payload under a filename: chunks it into chained cells,
    /// groups them into frames and a cube, and records the index entry,
    /// replacing any prior mapping for that filename.
    #[verifier::rlimit(100)]
    pub fn store_file(&mut self, filename: String, data: Vec<u8>) -> (r: Result<
        (),
        DatabaseError,
    >)
        requires
            old(self).wf(),
        ensures
            final(self).wf(),
            r is Ok,
            final(self).files_model() == old(self).files_model().insert(
                filename@,
                chunk_seq(data@, old(self).chunk_size as nat),
            ),
            final(self).ids_model() == old(self).ids_model().insert(
                filename@,
                chain_ids(chunk_seq(data@, old(self).chunk_size as nat)),
            ),
            final(self).users@ == old(self).users@,
            final(self).chunk_size == old(self).chunk_size,
            final(self).cells_per_frame == old(self).cells_per_frame,
    {
        let ghost c = self.chunk_size as nat;
        let ghost fname = filename@;
        let ghost chunks = chunk_seq(data@, c);
        let cells = self.split_into_beecells(data.as_slice());
        let ghost cells_seq = cells@;
        let frames = self.group_into_frames(cells);
        let cube_id = cube_id_string(filename.as_str());
        let cube = self.group_into_cube(frames, cube_id.clone());
        let ghost cube_g = cube;
        let ghost cid = cube_id@;
        proof {
            let dataf = |cell: BeeCell| cell.data@;
            let idf = |cell: BeeCell| cell.id@;
            let pieces = chunk_seq(cells_seq, self.cells_per_frame as nat);
            assert(cube_g.frames@.map_values(|f: Frame| frame_cell_data(f)) =~~= pieces.map_values(
                |xs: Seq<BeeCell>| xs.map_values(dataf),
            ));
            crate::chunker::lemma_map_flatten(pieces, dataf);
            lemma_chunk_seq_flatten(cells_seq, self.cells_per_frame as nat);
            assert(cube_cell_data(cube_g) == pieces.flatten().map_values(dataf));
            assert(cube_cell_data(cube_g) == chunks);
            assert(cube_g.frames@.map_values(
                |f: Frame| f.beecells@.map_values(|cell: BeeCell| cell.id@),
            ) =~~= pieces.map_values(|xs: Seq<BeeCell>| xs.map_values(idf)));
            crate::chunker::lemma_map_flatten(pieces, idf);
            assert(cube_cell_ids(cube_g) == pieces.flatten().map_values(idf));
            assert(cube_cell_ids(cube_g) == chain_ids(chunks));
        }
        let mut ids: Vec<String> = Vec::new();
        ids.push(cube_id.clone());
        let ghost ids_g = ids;
        let ghost cubes0 = self.cubes@;
        match self.find_cube_index(cube_id.as_str()) {
            Some(i) => {
                self.cubes[i] = (cube_id, cube);
                proof {
                    let pair = self.cubes@[i as int];
                    assert(self.cubes@ =~= cubes0.update(i as int, pair));
                    assert(pair.0@ == cid && pair.1 == cube_g);
                    assert forall|x: Seq<char>| #[trigger] lookup_cube(self.cubes@, x) == (if x
                        == cid {
                        Some(cube_g)
                    } else {
                        lookup_cube(cubes0, x)
                    }) by {
                        lemma_lookup_cube_update(cubes0, i as int, pair, x);
                    }
                    assert forall|k: int, l: int| 0 <= k < l < self.cubes@.len() implies (
                    #[trigger] self.cubes@[k]).0@ != (#[trigger] self.cubes@[l]).0@ by {
                        assert(cubes0[k].0@ != cubes0[l].0@);
                    }
                }
            },
            None => {
                self.cubes.push((cube_id, cube));
                proof {
                    let pair = self.cubes@.last();
                    assert(self.cubes@ =~= cubes0.push(pair));
                    assert(pair.0@ == cid && pair.1 == cube_g);
                    lemma_lookup_cube_iff(cubes0, cid);
                    assert forall|x: Seq<char>| #[trigger] lookup_cube(self.cubes@, x) == (if x
                        == cid {
                        Some(cube_g)
                    } else {
                        lookup_cube(cubes0, x)
                    }) by {
                        lemma_lookup_cube_push(cubes0, pair, x);
                    }
                    assert forall|k: int, l: int| 0 <= k < l < self.cubes@.len() implies (
                    #[trigger] self.cubes@[k]).0@ != (#[trigger] self.cubes@[l]).0@ by {
                        if l < self.cubes@.len() - 1 {
                            assert(cubes0[k].0@ != cubes0[l].0@);
                        } else {
                            assert(self.cubes@[k] == cubes0[k]);
                        }
                    }
                }
            },
        }
        let ghost links0 = self.file_links@;
        match self.find_link_index(filename.as_str()) {
            Some(i) => {
                self.file_links[i] = (filename, ids);
                proof {
                    let pair = self.file_links@[i as int];
                    assert(self.file_links@ =~= links0.update(i as int, pair));
                    assert(pair.0@ == fname && pair.1 == ids_g);
                    assert forall|x: Seq<char>| #[trigger] lookup_link(self.file_links@, x) == (
                    if x == fname {
                        Some(ids_g)
                    } else {
                        lookup_link(links0, x)
                    }) by {
                        lemma_lookup_link_update(links0, i as int, pair, x);
                    }
                    assert forall|k: int, l: int| 0 <= k < l < self.file_links@.len() implies (
                    #[trigger] self.file_links@[k]).0@ != (#[trigger] self.file_links@[l]).0@ by {
                        assert(links0[k].0@ != links0[l].0@);
                    }
                }
            },
            None => {
                self.file_links.push((filename, ids));
                proof {
                    let pair = self.file_links@.last();
                    assert(self.file_links@ =~= links0.push(pair));
                    assert(pair.0@ == fname && pair.1 == ids_g);
                    lemma_lookup_link_iff(links0, fname);
                    assert forall|x: Seq<char>| #[trigger] lookup_link(self.file_links@, x) == (
                    if x == fname {
                        Some(ids_g)
                    } else {
                        lookup_link(links0, x)
                    }) by {
                        lemma_lookup_link_push(links0, pair, x);
                    }
                    assert forall|k: int, l: int| 0 <= k < l < self.file_links@.len() implies (
                    #[trigger] self.file_links@[k]).0@ != (#[trigger] self.file_links@[l]).0@ by {
                        if l < self.file_links@.len() - 1 {
                            assert(links0[k].0@ != links0[l].0@);
                        } else {
                            assert(self.file_links@[k] == links0[k]);
                        }
                    }
                }
            },
        }
        proof {
            assert(ids_g@.len() == 1 && ids_g@[0]@ == cid);
            assert(cid == cube_id_chars(fname));
            assert forall|nm: Seq<char>| #[trigger] self.file_cells(nm) == (if nm == fname {
                Some(chunks)
            } else {
                old(self).file_cells(nm)
            }) && #[trigger] self.file_ids(nm) == (if nm == fname {
                Some(chain_ids(chunks))
            } else {
                old(self).file_ids(nm)
            }) by {
                if nm == fname {
                    assert(lookup_link(self.file_links@, nm) == Some(ids_g));
                    assert(lookup_cube(self.cubes@, cid) == Some(cube_g));
                } else {
                    assert(lookup_link(self.file_links@, nm) == lookup_link(links0, nm));
                    match lookup_link(links0, nm) {
                        None => {},
                        Some(v) => {
                            lemma_lookup_link_iff(links0, nm);
                            let j = choose|j: int|
                                0 <= j < links0.len() && (#[trigger] links0[j]).0@ == nm;
                            assert forall|k: int| 0 <= k < j implies (#[trigger] links0[k]).0@
                                != nm by {
                                assert(links0[k].0@ != links0[j].0@);
                            }
                            lemma_lookup_link_found(links0, j, nm);
                            assert(v == links0[j].1);
                            assert(v@.len() == 1 && v@[0]@ == cube_id_chars(nm));
                            assert(cube_id_chars(nm) != cid) by {
                                if cube_id_chars(nm) == cid {
                                    lemma_cube_id_injective(nm, fname);
                                }
                            }
                            assert(lookup_cube(self.cubes@, v@[0]@) == lookup_cube(
                                cubes0,
                                v@[0]@,
                            ));
                        },
                    }
                }
            }
            lemma_models_insert(*old(self), *self, fname, chunks, chain_ids(chunks));
            assert forall|k: int| 0 <= k < self.file_links@.len() implies {
                let link = #[trigger] self.file_links@[k];
                &&& link.1@.len() == 1
                &&& link.1@[0]@ == cube_id_chars(link.0@)
                &&& lookup_cube(self.cubes@, cube_id_chars(link.0@)) is Some
            } by {
                let link = self.file_links@[k];
                if link.0@ == fname {
                    assert(link.1 == ids_g);
                } else {
                    assert(exists|k0: int|
                        0 <= k0 < links0.len() && (#[trigger] links0[k0]) == link);
                    let k0 = choose|k0: int|
                        0 <= k0 < links0.len() && (#[trigger] links0[k0]) == link;
                    assert(links0[k0].1@.len() == 1);
                    assert(cube_id_chars(link.0@) != cid) by {
                        if cube_id_chars(link.0@) == cid {
                            lemma_cube_id_injective(link.0@, fname);
                        }
                    }
                    assert(lookup_cube(self.cubes@, cube_id_chars(link.0@)) == lookup_cube(
                        cubes0,
                        cube_id_chars(link.0@),
                    ));
                }
            }
        }
        Ok(())
    }

    /// Copies the data of every cell of a cube, frames in order.
    fn collect_cells(cube: &Cube) -> (r: Vec<Vec<u8>>)
        ensures
            r@.map_values(|v: Vec<u8>| v@) == cube_cell_data(*cube),
    {
        let mut out: Vec<Vec<u8>> = Vec::new();
        let nf = cube.frames.len();
        let mut i: usize = 0;
        proof {
            assert(cube.frames@.take(0).map_values(|f: Frame| frame_cell_data(f)) =~= Seq::<
                Seq<Seq<u8>>,
            >::empty());
            assert(out@.map_values(|v: Vec<u8>| v@) =~= cube.frames@.take(0).map_values(
                |f: Frame| frame_cell_data(f),
            ).flatten());
        }
        while i < nf
            invariant
                i <= nf,
                nf == cube.frames@.len(),
                out@.map_values(|v: Vec<u8>| v@) == cube.frames@.take(i as int).map_values(
                    |f: Frame| frame_cell_data(f),
                ).flatten(),
            decreases nf - i,
        {
            let ghost pre = out@.map_values(|v: Vec<u8>| v@);
            let nc = cube.frames[i].beecells.len();
            let mut j: usize = 0;
            while j < nc
                invariant
                    i < nf,
                    nf == cube.frames@.len(),
                    j <= nc,
                    nc == cube.frames@[i as int].beecells@.len(),
                    out@.map_values(|v: Vec<u8>| v@) == pre + frame_cell_data(
                        cube.frames@[i as int],
                    ).take(j as int),
                decreases nc - j,
            {
                let ghost out0 = out@;
                let cell_data = slice_to_vec(cube.frames[i].beecells[j].data.as_slice());
                let ghost cd = cell_data@;
                out.push(cell_data);
                j += 1;
                proof {
                    let fcd = frame_cell_data(cube.frames@[i as int]);
                    assert(fcd[j - 1] == cube.frames@[i as int].beecells@[j - 1].data@);
                    assert(cd == fcd[j - 1]);
                    assert(out@.map_values(|v: Vec<u8>| v@) =~= out0.map_values(
                        |v: Vec<u8>| v@,
                    ).push(cd));
                    assert(fcd.take(j as int) =~= fcd.take(j - 1).push(fcd[j - 1]));
                    assert((pre + fcd.take(j - 1)).push(cd) =~= pre + fcd.take(j as int));
                    assert(out@.map_values(|v: Vec<u8>| v@) =~= pre + fcd.take(j as int));
                }
            }
            i += 1;
            proof {
                let mapped = cube.frames@.take(i - 1).map_values(|f: Frame| frame_cell_data(f));
                let fcd = frame_cell_data(cube.frames@[i - 1]);
                assert(fcd.take(nc as int) =~= fcd);
                assert(cube.frames@.take(i as int).map_values(|f: Frame| frame_cell_data(f))
                    =~= mapped.push(fcd));
                mapped.lemma_flatten_push(fcd);
                assert(out@.map_values(|v: Vec<u8>| v@) =~= cube.frames@.take(
                    i as int,
                ).map_values(|f: Frame| frame_cell_data(f)).flatten());
            }
        }
        proof {
            assert(cube.frames@.take(nf as int) =~= cube.frames@);
        }
        out
    }

    /// Concatenates a consecutive range of cell payloads.
    fn concat_cells(cells: &Vec<Vec<u8>>, lo: usize, hi: usize) -> (r: Vec<u8>)
        requires
            lo <= hi <= cells@.len(),
        ensures
            r@ == cells@.map_values(|v: Vec<u8>| v@).subrange(lo as int, hi as int).flatten(),
    {
        let cv = Ghost(cells@.map_values(|v: Vec<u8>| v@));
        let mut out: Vec<u8> = Vec::new();
        let mut k: usize = lo;
        proof {
            assert(cv@.subrange(lo as int, lo as int) =~= Seq::<Seq<u8>>::empty());
            assert(out@ =~= cv@.subrange(lo as int, lo as int).flatten());
        }
        while k < hi
            invariant
                lo <= k <= hi,
                hi <= cells@.len(),
                cv@ == cells@.map_values(|v: Vec<u8>| v@),
                out@ == cv@.subrange(lo as int, k as int).flatten(),
            decreases hi - k,
        {
            out.extend_from_slice(cells[k].as_slice());
            k += 1;
            proof {
                assert(cv@[k - 1] == cells@[k - 1]@);
                assert(cv@.subrange(lo as int, k as int) =~= cv@.subrange(lo as int, k - 1).push(
                    cv@[k - 1],
                ));
                cv@.subrange(lo as int, k - 1).lemma_flatten_push(cv@[k - 1]);
                assert(out@ =~= cv@.subrange(lo as int, k as int).flatten());
            }
        }
        out
    }

    /// Looks the filename up and copies the cell payloads of its cube.
    /// Returns `None` exactly when the filename is absent.
    fn lookup_file_cells(&self, filename: &str) -> (r: Option<Vec<Vec<u8>>>)
        requires
            self.wf(),
        ensures
            r is Some <==> self.files_model().dom().contains(filename@),
            r matches Some(cells) ==> cells@.map_values(|v: Vec<u8>| v@) == self.files_model()[
                filename@
            ],
    {
        match self.find_link_index(filename) {
            Some(i) => {
                let cube_idx = match self.find_cube_index(self.file_links[i].1[0].as_str()) {
                    Some(j) => j,
                    None => {
                        proof {
                            assert(false);
                        }
                        return None;
                    },
                };
                let cube = &self.cubes[cube_idx].1;
                let cells = Self::collect_cells(cube);
                Some(cells)
            },
            None => None,
        }
    }

    /// Reconstructs the payload stored under a filename by concatenating
    /// its cells in order. Fails exactly when the filename is absent.
    pub fn retrieve_file(&self, filename: &str) -> (r: Result<Vec<u8>, DatabaseError>)
        requires
            self.wf(),
        ensures
            r is Ok <==> self.files_model().dom().contains(filename@),
            r matches Ok(d) ==> d@ == self.files_model()[filename@].flatten(),
            r matches Err(e) ==> e matches DatabaseError::FileNotFound(f) && f@ == filename@,
    {
        match self.lookup_file_cells(filename) {
            Some(cells) => {
                let n = cells.len();
                let out = Self::concat_cells(&cells, 0, n);
                proof {
                    assert(cells@.map_values(|v: Vec<u8>| v@).subrange(
                        0,
                        cells@.len() as int,
                    ) =~= cells@.map_values(|v: Vec<u8>| v@));
                }
                Ok(out)
            },
            None => Err(DatabaseError::FileNotFound(filename.to_owned())),
        }
    }

    /// The concatenation of the cells of `cells` with index in
    /// `[start, end)`, both bounds clamped to the available range.
    pub open spec fn slice_cells(cells: Seq<Seq<u8>>, start: int, end: int) -> Seq<u8> {
        let e = if end > cells.len() {
            cells.len() as int
        } else {
            end
        };
        let s = if start > e {
            e
        } else {
            start
        };
        cells.subrange(s, e).flatten()
    }

    /// Returns the concatenation of the cells with index in `[start, end)`
    /// of the file's cell list; bounds beyond the end are clamped. Fails
    /// with `InvalidArgument` when `start > end`, and with `FileNotFound`
    /// exactly when the filename is absent.
    pub fn slice_file(&self, filename: &str, start: usize, end: usize) -> (r: Result<
        Vec<u8>,
        DatabaseError,
    >)
        requires
            self.wf(),
        ensures
            start > end ==> r matches Err(DatabaseError::InvalidArgument),
            start <= end ==> ((r is Ok) <==> self.files_model().dom().contains(filename@)),
            r matches Ok(d) ==> d@ == Self::slice_cells(
                self.files_model()[filename@],
                start as int,
                end as int,
            ),
            start <= end && r is Err ==> (r matches Err(e) && e matches DatabaseError::FileNotFound(
                f,
            ) && f@ == filename@),
    {
        if start > end {
            return Err(DatabaseError::InvalidArgument);
        }
        match self.lookup_file_cells(filename) {
            Some(cells) => {
                let n = cells.len();
                let hi = if end > n {
                    n
                } else {
                    end
                };
                let lo = if start > hi {
                    hi
                } else {
                    start
                };
                let out = Self::concat_cells(&cells, lo, hi);
                Ok(out)
            },
            None => Err(DatabaseError::FileNotFound(filename.to_owned())),
        }
    }

    /// An identifier derived from a neighbour cell's identifier alone:
    /// the decimal digest of its text.
    pub fn previous_beecell_id(beecell_id: &str) -> (r: String)
        ensures
            r@ == decimal_chars(
                DefaultHasher::spec_finish(seq![encode_utf8(beecell_id@)]),
            ),
    {
        let mut hasher = DefaultHasher::new();
        hasher.write(beecell_id.as_bytes());
        proof {
            assert(hasher@ =~~= seq![encode_utf8(beecell_id@)]);
        }
        u64_to_decimal(hasher.finish())
    }

    /// An identifier derived from a neighbour cell's identifier alone:
    /// the decimal digest of its text.
    pub fn next_beecell_id(beecell_id: &str) -> (r: String)
        ensures
            r@ == decimal_chars(
                DefaultHasher::spec_finish(seq![encode_utf8(beecell_id@)]),
            ),
    {
        Self::previous_beecell_id(beecell_id)
    }

    /// An identifier derived from a cell's data alone.
    pub fn beecell_id(data: &[u8]) -> (r: String)
        ensures
            r@ == decimal_chars(DefaultHasher::spec_finish(seq![data@])),
    {
        let mut hasher = DefaultHasher::new();
        hasher.write(data);
        proof {
            assert(hasher@ =~~= seq![data@]);
        }
        u64_to_decimal(hasher.finish())
    }

    /// An identifier binding a cell's data to its predecessor's
    /// identifier.
    pub fn beecell_id_from_previous(previous_beecell_id: &str, data: &[u8]) -> (r: String)
        ensures
            r@ == decimal_chars(
                DefaultHasher::spec_finish(seq![encode_utf8(previous_beecell_id@), data@]),
            ),
    {
        let mut hasher = DefaultHasher::new();
        hasher.write(previous_beecell_id.as_bytes());
        hasher.write(data);
        proof {
            assert(hasher@ =~~= seq![encode_utf8(previous_beecell_id@), data@]);
        }
        u64_to_decimal(hasher.finish())
    }

    /// An identifier binding a cell's data to its successor's identifier.
    pub fn beecell_id_from_next(next_beecell_id: &str, data: &[u8]) -> (r: String)
        ensures
            r@ == decimal_chars(
                DefaultHasher::spec_finish(seq![encode_utf8(next_beecell_id@), data@]),
            ),
    {
        Self::beecell_id_from_previous(next_beecell_id, data)
    }

    /// An identifier binding a cell's data to both neighbours'
    /// identifiers.
    pub fn beecell_id_from_previous_and_next(
        previous_beecell_id: &str,
        next_beecell_id: &str,
        data: &[u8],
    ) -> (r: String)
        ensures
            r@ == decimal_chars(
                DefaultHasher::spec_finish(
                    seq![
                        encode_utf8(previous_beecell_id@),
                        encode_utf8(next_beecell_id@),
                        data@,
                    ],
                ),
            ),
    {
        let mut hasher = DefaultHasher::new();
        hasher.write(previous_beecell_id.as_bytes());
        hasher.write(next_beecell_id.as_bytes());
        hasher.write(data);
        proof {
            assert(hasher@ =~~= seq![
                encode_utf8(previous_beecell_id@),
                encode_utf8(next_beecell_id@),
                data@,
            ]);
        }
        u64_to_decimal(hasher.finish())
    }

    /// Removes a filename from the index. The cube it referenced is not
    /// reclaimed. Fails exactly when the filename is absent.
    pub fn delete_file(&mut self, filename: String) -> (r: Result<(), DatabaseError>)
        requires
            old(self).wf(),
        ensures
            final(self).wf(),
            r is Ok <==> old(self).files_model().dom().contains(filename@),
            r is Ok ==> final(self).files_model() == old(self).files_model().remove(filename@)
                && final(self).ids_model() == old(self).ids_model().remove(filename@)
                && final(self).cubes@ == old(self).cubes@,
            r matches Err(e) ==> e matches DatabaseError::FileNotFound(f) && f@ == filename@
                && *final(self) == *old(self),
            final(self).users@ == old(self).users@,
            final(self).chunk_size == old(self).chunk_size,
            final(self).cells_per_frame == old(self).cells_per_frame,
    {
        match self.find_link_index(filename.as_str()) {
            Some(i) => {
                self.file_links.remove(i);
                proof {
                    let oldl = old(self).file_links@;
                    assert(self.file_links@ =~= oldl.remove(i as int));
                    assert forall|name: Seq<char>|
                        lookup_link(self.file_links@, name) == (if oldl[i as int].0@ == name {
                            None::<Vec<String>>
                        } else {
                            lookup_link(oldl, name)
                        }) by {
                        lemma_lookup_link_remove(oldl, i as int, name);
                    }
                    assert(self.files_model() =~= old(self).files_model().remove(filename@));
                    assert(self.ids_model() =~= old(self).ids_model().remove(filename@));
                }
                Ok(())
            },
            None => {
                proof {
                    assert(!old(self).files_model().dom().contains(filename@));
                }
                Err(DatabaseError::FileNotFound(filename))
            },
        }
    }

    /// The list of cube identifiers recorded for a filename, if present.
    pub fn get_file_links(&self, filename: &str) -> (r: Option<Vec<String>>)
        requires
            self.wf(),
        ensures
            r is Some <==> self.files_model().dom().contains(filename@),
            r matches Some(v) ==> v@.len() == 1 && v@[0]@ == cube_id_chars(filename@),
    {
        match self.find_link_index(filename) {
            Some(i) => {
                let ids = &self.file_links[i].1;
                let mut out: Vec<String> = Vec::new();
                let mut k: usize = 0;
                let n = ids.len();
                while k < n
                    invariant
                        k <= n,
                        n == ids@.len(),
                        out@.len() == k,
                        forall|j: int| 0 <= j < k ==> (#[trigger] out@[j])@ == ids@[j]@,
                    decreases n - k,
                {
                    out.push(ids[k].clone());
                    k += 1;
                }
                Some(out)
            },
            None => None,
        }
    }

    /// Registers a new user: derives the stable identifier, hashes the
    /// password and appends the record. Fails with `DuplicateUser` exactly
    /// when the username is taken, and with a hashing error only if the
    /// password hash could not be computed.
    pub fn register_user(
        &mut self,
        username: String,
        email: String,
        password: String,
        beeid: String,
        key: [u8; 32],
    ) -> (r: Result<(), DatabaseError>)
        requires
            old(self).wf(),
        ensures
            final(self).wf(),
            r matches Err(DatabaseError::DuplicateUser) <==> lookup_user(
                old(self).users@,
                username@,
            ) is Some,
            r matches Err(e) ==> *final(self) == *old(self) && (e is DuplicateUser
                || e is HashingError),
            r is Ok ==> {
                &&& final(self).users@.len() == old(self).users@.len() + 1
                &&& final(self).users@.take(old(self).users@.len() as int) == old(self).users@
                &&& {
                    let u = final(self).users@.last();
                    &&& u@.username == username@
                    &&& u@.email == email@
                    &&& u@.beeid == beeid@
                    &&& u@.key == key@
                    &&& bcrypt_verify_of(encode_utf8(password@), u@.password_hash) == Some(true)
                }
                &&& forall|name: Seq<char>|
                    #[trigger] lookup_user(final(self).users@, name) == (if name == username@ {
                        Some(final(self).users@.last())
                    } else {
                        lookup_user(old(self).users@, name)
                    })
            },
            final(self).file_links@ == old(self).file_links@,
            final(self).cubes@ == old(self).cubes@,
            final(self).chunk_size == old(self).chunk_size,
            final(self).cells_per_frame == old(self).cells_per_frame,
    {
        if let Some(_) = self.find_user_index(username.as_str()) {
            return Err(DatabaseError::DuplicateUser);
        }
        let password_hash = match crate::user::hash_password(password.as_str()) {
            Ok(h) => h,
            Err(e) => {
                return Err(e);
            },
        };
        let user = User {
            username,
            email,
            beeid,
            authenticate: false,
            key,
            password_hash,
        };
        self.users.push(user);
        proof {
            assert(self.users@.take(old(self).users@.len() as int) =~= old(self).users@);
            let pushed = self.users@.last();
            assert(pushed@.username == username@);
            assert(self.users@ =~= old(self).users@.push(pushed));
            lemma_lookup_user_iff(old(self).users@, username@);
            assert forall|name: Seq<char>|
                #[trigger] lookup_user(self.users@, name) == (if name == username@ {
                    Some(pushed)
                } else {
                    lookup_user(old(self).users@, name)
                }) by {
                lemma_lookup_user_push(old(self).users@, pushed, name);
            }
            assert forall|k: int, l: int|
                0 <= k < l < self.users@.len() implies (#[trigger] self.users@[k])@.username != (
            #[trigger] self.users@[l])@.username by {
                if l == self.users@.len() - 1 {
                    assert(self.users@[k] == old(self).users@[k]);
                }
            }
        }
        Ok(())
    }

    /// Checks a password against a stored record. Fails with
    /// `UserNotFound` exactly when the username is absent; otherwise
    /// returns whether the password matches the stored one-way hash.
    pub fn authenticate_user(&self, username: &str, password: &str) -> (r: Result<
        bool,
        DatabaseError,
    >)
        ensures
            r is Err <==> lookup_user(self.users@, username@) is None,
            r matches Err(e) ==> e is UserNotFound,
            r matches Ok(b) ==> b == (bcrypt_verify_of(
                encode_utf8(password@),
                lookup_user(self.users@, username@).unwrap()@.password_hash,
            ) == Some(true)),
    {
        match self.find_user_index(username) {
            Some(i) => Ok(self.users[i].authenticate(password)),
            None => Err(DatabaseError::UserNotFound),
        }
    }

    /// Inserts a record, replacing any record with the same username.
    pub fn add_user(&mut self, user: User) -> (r: Result<(), DatabaseError>)
        requires
            old(self).wf(),
        ensures
            final(self).wf(),
            r is Ok,
            forall|name: Seq<char>|
                #[trigger] lookup_user(final(self).users@, name) == (if user@.username == name {
                    Some(user)
                } else {
                    lookup_user(old(self).users@, name)
                }),
            final(self).file_links@ == old(self).file_links@,
            final(self).cubes@ == old(self).cubes@,
            final(self).chunk_size == old(self).chunk_size,
            final(self).cells_per_frame == old(self).cells_per_frame,
    {
        match self.find_user_index(user.username.as_str()) {
            Some(i) => {
                proof {
                    assert(old(self).users@[i as int]@.username == user@.username);
                }
                self.users[i] = user;
                proof {
                    assert(self.users@ =~= old(self).users@.update(i as int, user));
                    assert forall|name: Seq<char>|
                        #[trigger] lookup_user(self.users@, name) == (if user@.username == name {
                            Some(user)
                        } else {
                            lookup_user(old(self).users@, name)
                        }) by {
                        lemma_lookup_user_update(old(self).users@, i as int, user, name);
                    }
                }
                Ok(())
            },
            None => {
                self.users.push(user);
                proof {
                    lemma_lookup_user_iff(old(self).users@, user@.username);
                    assert(self.users@ =~= old(self).users@.push(user));
                    assert forall|name: Seq<char>|
                        #[trigger] lookup_user(self.users@, name) == (if user@.username == name {
                            Some(user)
                        } else {
                            lookup_user(old(self).users@, name)
                        }) by {
                        lemma_lookup_user_push(old(self).users@, user, name);
                    }
                }
                Ok(())
            },
        }
    }

    /// Looks a user up by name. Fails with `UserNotFound` exactly when the
    /// username is absent.
    pub fn get_user(&self, username: String) -> (r: Result<User, DatabaseError>)
        ensures
            r is Err <==> lookup_user(self.users@, username@) is None,
            r matches Err(e) ==> e is UserNotFound,
            r matches Ok(u) ==> u@ == lookup_user(self.users@, username@).unwrap()@,
    {
        match self.find_user_index(username.as_str()) {
            Some(i) => Ok(self.users[i].duplicate()),
            None => Err(DatabaseError::UserNotFound),
        }
    }

    /// Whether a username is registered.
    pub fn user_exists(&self, username: &str) -> (r: Result<bool, DatabaseError>)
        ensures
            r matches Ok(b) && b == (lookup_user(self.users@, username@) is Some),
    {
        match self.find_user_index(username) {
            Some(_) => Ok(true),
            None => Ok(false),
        }
    }
}

} // verus!
