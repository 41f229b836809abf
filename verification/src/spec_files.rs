use vstd::prelude::*;
use crate::json_merge::{json_wf, merge, merged, JsonValue};
use sha2::Digest;

verus! {

#[verifier::external_type_specification]
#[verifier::external_body]
pub struct ExSerdeJsonValue(serde_json::Value);

/// The JSON value that serde_json reads from the bytes `b`, if they hold JSON (numbers
/// kept as their text).
pub uninterp spec fn json_parse(b: Seq<u8>) -> Option<JsonValue>;

/// The SHA-256 digest of the bytes `b`.
pub uninterp spec fn sha256(b: Seq<u8>) -> Seq<u8>;

/// serde_json's value as the library's value, one for one (numbers as their text).
#[verifier::external_body]
fn json_of_value(v: &serde_json::Value) -> JsonValue {
    match v {
        serde_json::Value::Null => JsonValue::Null,
        serde_json::Value::Bool(b) => JsonValue::Bool(*b),
        serde_json::Value::Number(n) => JsonValue::Number(n.to_string()),
        serde_json::Value::String(s) => JsonValue::Str(s.clone()),
        serde_json::Value::Array(a) => JsonValue::Array(a.iter().map(json_of_value).collect()),
        serde_json::Value::Object(o) => JsonValue::Object(o.iter().map(|(k, x)| (k.clone(), json_of_value(x))).collect()),
    }
}

/// `serde_json::from_slice::<serde_json::Value>` on `b`, converted to the library's
/// value.  Its result is named `json_parse`; an object's keys are those of a
/// `serde_json::Map`, so no key occurs twice (`json_wf`).
#[verifier::external_body]
fn parse_json(b: &[u8]) -> (r: Option<JsonValue>)
    ensures
        r == json_parse(b@),
        r matches Some(v) ==> json_wf(v),
{
    serde_json::from_slice::<serde_json::Value>(b).ok().map(|v| json_of_value(&v))
}

/// `sha2::Sha256::digest` of `b`.  Its result is named `sha256`.
#[verifier::external_body]
fn file_hash(b: &[u8]) -> (r: Vec<u8>)
    ensures
        r@ == sha256(b@),
{
    sha2::Sha256::digest(b).to_vec()
}

/// One step of layering task files: the value so far, the value read from the next
/// file (none if it is not JSON, and then it is skipped), and the value after.
pub open spec fn layer_step(lower: Option<JsonValue>, upper: Option<JsonValue>, r: Option<JsonValue>) -> bool {
    match (lower, upper) {
        (None, u) => r == u,
        (Some(l), None) => r == Some(l),
        (Some(l), Some(u)) => r matches Some(x) && merged(l, u, x),
    }
}

/// `vals` are the values after each file when layering `files` in order, starting
/// from none: each file that holds JSON is laid over the value of the files before it.
pub open spec fn layer_trace(files: Seq<Seq<u8>>, vals: Seq<Option<JsonValue>>) -> bool {
    &&& vals.len() == files.len() + 1
    &&& vals[0] is None
    &&& forall|i: int| 0 <= i < files.len() ==> #[trigger] layer_step(vals[i], json_parse(files[i]), vals[i + 1])
}

/// `r` is what layering the files `files` in order gives.
pub open spec fn layered(files: Seq<Seq<u8>>, r: Option<JsonValue>) -> bool {
    exists|vals: Seq<Option<JsonValue>>| #[trigger] layer_trace(files, vals) && vals.last() == r
}

pub open spec fn files_view(files: Seq<Vec<u8>>) -> Seq<Seq<u8>> {
    files.map_values(|f: Vec<u8>| f@)
}

/// Read the files of one task, in order: each that holds JSON is laid over the files
/// before it (see `layered`).  Also returns each file's SHA-256 digest and whether it
/// held JSON.
pub fn merge_spec_files(files: &Vec<Vec<u8>>) -> (r: (Option<JsonValue>, Vec<Vec<u8>>, Vec<bool>))
    ensures
        layered(files_view(files@), r.0),
        r.0 matches Some(v) ==> json_wf(v),
        r.1@.len() == files@.len(),
        forall|i: int| 0 <= i < files@.len() ==> #[trigger] r.1@[i]@ == sha256(files@[i]@),
        r.2@.len() == files@.len(),
        forall|i: int| 0 <= i < files@.len() ==> #[trigger] r.2@[i] == json_parse(files@[i]@) is Some,
{
    let mut value: Option<JsonValue> = None;
    let mut hashes: Vec<Vec<u8>> = Vec::new();
    let mut ok: Vec<bool> = Vec::new();
    let mut i: usize = 0;
    let ghost mut vals: Seq<Option<JsonValue>> = seq![None];
    while i < files.len()
        invariant
            i <= files@.len(),
            layer_trace(files_view(files@).subrange(0, i as int), vals),
            vals.last() == value,
            value matches Some(v) ==> json_wf(v),
            hashes@.len() == i,
            forall|j: int| 0 <= j < i ==> #[trigger] hashes@[j]@ == sha256(files@[j]@),
            ok@.len() == i,
            forall|j: int| 0 <= j < i ==> #[trigger] ok@[j] == json_parse(files@[j]@) is Some,
        decreases files@.len() - i,
    {
        let f = files[i].as_slice();
        hashes.push(file_hash(f));
        let upper = parse_json(f);
        ok.push(upper.is_some());
        let ghost mid = value;
        let next = match value {
            None => upper,
            Some(lower) => match upper {
                None => Some(lower),
                Some(u) => Some(merge(lower, u)),
            },
        };
        value = next;
        proof {
            let fv = files_view(files@);
            let s0 = fv.subrange(0, i as int);
            let s = fv.subrange(0, i + 1);
            let v0 = vals;
            vals = vals.push(value);
            assert(s[i as int] == files@[i as int]@);
            assert(v0[i as int] == mid);
            assert forall|j: int| 0 <= j < s.len() implies #[trigger] layer_step(vals[j], json_parse(s[j]), vals[j + 1]) by {
                if j < i {
                    assert(s[j] == s0[j]);
                    assert(layer_step(v0[j], json_parse(s0[j]), v0[j + 1]));
                }
            }
        }
        i = i + 1;
    }
    proof {
        assert(files_view(files@).subrange(0, files@.len() as int) =~= files_view(files@));
        assert(layer_trace(files_view(files@), vals));
    }
    (value, hashes, ok)
}


/// `loaded` holds the file `path` with the hash `hash`.
pub open spec fn hash_loaded(loaded: Seq<(String, Vec<u8>)>, path: Seq<char>, hash: Seq<u8>) -> bool {
    exists|k: int| 0 <= k < loaded.len() && #[trigger] loaded[k].0@ == path && loaded[k].1@ == hash
}

/// A task read from the task directories must be read again: it is no longer there
/// (`on_disk` is none), or one of its files there could not be read (no hash) or has
/// a hash other than the one loaded for that file (or none was loaded).
pub open spec fn files_changed_of(loaded: Seq<(String, Vec<u8>)>, on_disk: Option<Seq<(String, Option<Vec<u8>>)>>) -> bool {
    match on_disk {
        None => true,
        Some(files) => exists|j: int|
            0 <= j < files.len() && match #[trigger] files[j].1 {
                None => true,
                Some(h) => !hash_loaded(loaded, files[j].0@, h@),
            },
    }
}

/// Each file is compared, wherever it stands in the list: a task must be read again
/// when any file of it on disk could not be read, or has bytes whose hash was not
/// loaded for that file's path; and only then (or when the task is gone from disk).
pub proof fn lemma_files_changed_law(loaded: Seq<(String, Vec<u8>)>, files: Seq<(String, Option<Vec<u8>>)>)
    ensures
        files_changed_of(loaded, None),
        forall|j: int| 0 <= j < files.len() && #[trigger] files[j].1 is None ==> files_changed_of(loaded, Some(files)),
        forall|j: int|
            0 <= j < files.len() && (#[trigger] files[j].1 matches Some(h) && forall|k: int|
                0 <= k < loaded.len() ==> !(loaded[k].0@ == files[j].0@ && loaded[k].1@ == h@)) ==> files_changed_of(
                loaded,
                Some(files),
            ),
        (forall|j: int|
            0 <= j < files.len() ==> (#[trigger] files[j].1 matches Some(h) && exists|k: int|
                0 <= k < loaded.len() && loaded[k].0@ == files[j].0@ && loaded[k].1@ == h@)) ==> !files_changed_of(
            loaded,
            Some(files),
        ),
{
    assert forall|j: int| 0 <= j < files.len() && #[trigger] files[j].1 is None implies files_changed_of(loaded, Some(files)) by {
        assert(match files[j].1 {
            None => true,
            Some(h) => !hash_loaded(loaded, files[j].0@, h@),
        });
    }
    assert forall|j: int|
        0 <= j < files.len() && (#[trigger] files[j].1 matches Some(h) && forall|k: int|
            0 <= k < loaded.len() ==> !(loaded[k].0@ == files[j].0@ && loaded[k].1@ == h@)) implies files_changed_of(
        loaded,
        Some(files),
    ) by {
        let h = files[j].1->0;
        if hash_loaded(loaded, files[j].0@, h@) {
            let k = choose|k: int| 0 <= k < loaded.len() && #[trigger] loaded[k].0@ == files[j].0@ && loaded[k].1@ == h@;
            assert(!(loaded[k].0@ == files[j].0@ && loaded[k].1@ == h@));
        }
        assert(match files[j].1 {
            None => true,
            Some(h) => !hash_loaded(loaded, files[j].0@, h@),
        });
    }
    if forall|j: int|
        0 <= j < files.len() ==> (#[trigger] files[j].1 matches Some(h) && exists|k: int|
            0 <= k < loaded.len() && loaded[k].0@ == files[j].0@ && loaded[k].1@ == h@) {
        assert forall|j: int| 0 <= j < files.len() implies !match #[trigger] files[j].1 {
            None => true,
            Some(h) => !hash_loaded(loaded, files[j].0@, h@),
        } by {
            let h = files[j].1->0;
            let k = choose|k: int| 0 <= k < loaded.len() && loaded[k].0@ == files[j].0@ && loaded[k].1@ == h@;
            assert(loaded[k].0@ == files[j].0@);
        }
    }
}

/// `files_changed_of` on the files found on disk, spelled out.
proof fn lemma_files_changed_exact(loaded: Seq<(String, Vec<u8>)>, files: Seq<(String, Option<Vec<u8>>)>)
    ensures
        files_changed_of(loaded, Some(files)) <==> exists|j: int|
            0 <= j < files.len() && (#[trigger] files[j].1 matches Some(h) ==> forall|k: int|
                0 <= k < loaded.len() ==> !(loaded[k].0@ == files[j].0@ && loaded[k].1@ == h@)),
{
    lemma_files_changed_law(loaded, files);
    if exists|j: int|
        0 <= j < files.len() && (#[trigger] files[j].1 matches Some(h) ==> forall|k: int|
            0 <= k < loaded.len() ==> !(loaded[k].0@ == files[j].0@ && loaded[k].1@ == h@)) {
        let j = choose|j: int|
            0 <= j < files.len() && (#[trigger] files[j].1 matches Some(h) ==> forall|k: int|
                0 <= k < loaded.len() ==> !(loaded[k].0@ == files[j].0@ && loaded[k].1@ == h@));
        if files[j].1 is None {
        } else {
        }
    } else {
        assert forall|j: int|
            0 <= j < files.len() implies (#[trigger] files[j].1 matches Some(h) && exists|k: int|
                0 <= k < loaded.len() && loaded[k].0@ == files[j].0@ && loaded[k].1@ == h@) by {
            assert(!(files[j].1 matches Some(h) ==> forall|k: int|
                0 <= k < loaded.len() ==> !(loaded[k].0@ == files[j].0@ && loaded[k].1@ == h@)));
        }
    }
}

fn bytes_eq(a: &Vec<u8>, b: &Vec<u8>) -> (r: bool)
    ensures
        r == (a@ == b@),
{
    if a.len() != b.len() {
        return false;
    }
    let mut i: usize = 0;
    while i < a.len()
        invariant
            a@.len() == b@.len(),
            i <= a@.len(),
            forall|k: int| 0 <= k < i ==> a@[k] == b@[k],
        decreases a@.len() - i,
    {
        if a[i] != b[i] {
            return false;
        }
        i = i + 1;
    }
    proof {
        assert(a@ =~= b@);
    }
    true
}

/// `files_changed_of`, by one pass over the files on disk.
fn files_changed_scan(loaded: &Vec<(String, Vec<u8>)>, on_disk: &Option<Vec<(String, Option<Vec<u8>>)>>) -> (r: bool)
    ensures
        r == files_changed_of(
            loaded@,
            match on_disk {
                Some(v) => Some(v@),
                None => None,
            },
        ),
{
    let files = match on_disk {
        None => return true,
        Some(f) => f,
    };
    let ghost disk = match on_disk {
        Some(v) => Some(v@),
        None => None,
    };
    assert(disk == Some(files@));
    let mut j: usize = 0;
    while j < files.len()
        invariant
            j <= files@.len(),
            disk == Some(files@),
            disk == (match on_disk {
                Some(v) => Some(v@),
                None => None,
            }),
            forall|x: int| 0 <= x < j ==> match #[trigger] files@[x].1 {
                None => false,
                Some(h) => hash_loaded(loaded@, files@[x].0@, h@),
            },
        decreases files@.len() - j,
    {
        let (path, hash) = &files[j];
        match hash {
            None => {
                proof {
                    assert(files@[j as int].1 is None);
                    assert(files_changed_of(loaded@, Some(files@)));
                }
                return true;
            },
            Some(h) => {
                let mut found = false;
                let mut k: usize = 0;
                while k < loaded.len()
                    invariant
                        k <= loaded@.len(),
                        found ==> hash_loaded(loaded@, path@, h@),
                        !found ==> forall|y: int| 0 <= y < k ==> !(#[trigger] loaded@[y].0@ == path@ && loaded@[y].1@ == h@),
                    decreases loaded@.len() - k,
                {
                    if loaded[k].0 == *path && bytes_eq(&loaded[k].1, h) {
                        found = true;
                    }
                    k = k + 1;
                }
                if !found {
                    proof {
                        assert(!hash_loaded(loaded@, path@, h@));
                        assert(files@[j as int].1 == Some(*h));
                        assert(files_changed_of(loaded@, Some(files@)));
                    }
                    return true;
                }
            },
        }
        j = j + 1;
    }
    false
}

/// `files_changed_of`: whether a task must be read again from the task directories.
pub fn files_changed(loaded: &Vec<(String, Vec<u8>)>, on_disk: &Option<Vec<(String, Option<Vec<u8>>)>>) -> (r: bool)
    ensures
        on_disk is None ==> r,
        on_disk matches Some(files) ==> (r <==> exists|j: int|
            0 <= j < files@.len() && (#[trigger] files@[j].1 matches Some(h) ==> forall|k: int|
                0 <= k < loaded@.len() ==> !(loaded@[k].0@ == files@[j].0@ && loaded@[k].1@ == h@))),
        r == files_changed_of(
            loaded@,
            match on_disk {
                Some(v) => Some(v@),
                None => None,
            },
        ),
{
    let r = files_changed_scan(loaded, on_disk);
    proof {
        match on_disk {
            Some(f) => lemma_files_changed_exact(loaded@, f@),
            None => {},
        }
    }
    r
}

} // verus!
