use vstd::prelude::*;

verus! {

/// A JSON value.  Numbers are kept as their text.
pub enum JsonValue {
    Null,
    Bool(bool),
    Number(String),
    Str(String),
    Array(Vec<JsonValue>),
    Object(Vec<(String, JsonValue)>),
}

/// Some entry has key `k`.
pub open spec fn has_key(entries: Seq<(String, JsonValue)>, k: Seq<char>) -> bool {
    exists|i: int| 0 <= i < entries.len() && #[trigger] entries[i].0@ == k
}

pub open spec fn key_pos(entries: Seq<(String, JsonValue)>, k: Seq<char>) -> int {
    choose|i: int| 0 <= i < entries.len() && #[trigger] entries[i].0@ == k
}

/// No key occurs twice in an object's entries.
pub open spec fn keys_distinct(entries: Seq<(String, JsonValue)>) -> bool {
    forall|i: int, j: int| 0 <= i < j < entries.len() ==> #[trigger] entries[i].0@ != #[trigger] entries[j].0@
}

/// Every object in `v`, at any depth, has distinct keys.
pub open spec fn json_wf(v: JsonValue) -> bool
    decreases v,
{
    match v {
        JsonValue::Object(e) => keys_distinct(e@) && forall|i: int| 0 <= i < e@.len() ==> json_wf(#[trigger] e@[i].1),
        JsonValue::Array(a) => forall|i: int| 0 <= i < a@.len() ==> json_wf(#[trigger] a@[i]),
        _ => true,
    }
}

/// `r` is `upper` laid over `lower`: when both are objects, `r` is an object with the
/// keys of both, where a key of only one keeps its value and a key of both has the
/// two values merged in turn; otherwise `r` is `upper`.
pub open spec fn merged(lower: JsonValue, upper: JsonValue, r: JsonValue) -> bool
    decreases upper,
{
    match (lower, upper) {
        (JsonValue::Object(l), JsonValue::Object(u)) => match r {
            JsonValue::Object(e) => {
                &&& keys_distinct(e@)
                &&& forall|k: Seq<char>| #[trigger] has_key(e@, k) <==> has_key(l@, k) || has_key(u@, k)
                &&& forall|i: int|
                    #![trigger e@[i]]
                    0 <= i < e@.len() ==> {
                        let k = e@[i].0@;
                        if has_key(u@, k) && has_key(l@, k) {
                            let ui = key_pos(u@, k);
                            0 <= ui < u@.len() ==> merged(l@[key_pos(l@, k)].1, u@[ui].1, e@[i].1)
                        } else if has_key(u@, k) {
                            e@[i].1 == u@[key_pos(u@, k)].1
                        } else {
                            e@[i].1 == l@[key_pos(l@, k)].1
                        }
                    }
            },
            _ => false,
        },
        (_, u) => r == u,
    }
}

fn find_key(entries: &Vec<(String, JsonValue)>, k: &String) -> (r: Option<usize>)
    ensures
        r matches Some(i) ==> i < entries@.len() && entries@[i as int].0@ == k@,
        r is None ==> !has_key(entries@, k@),
{
    let mut i: usize = 0;
    while i < entries.len()
        invariant
            i <= entries@.len(),
            forall|j: int| 0 <= j < i ==> #[trigger] entries@[j].0@ != k@,
        decreases entries@.len() - i,
    {
        if entries[i].0 == *k {
            return Some(i);
        }
        i = i + 1;
    }
    None
}

/// Lay `upper` over `lower` (see `merged`).
pub fn merge(lower: JsonValue, upper: JsonValue) -> (r: JsonValue)
    requires
        json_wf(lower),
        json_wf(upper),
    ensures
        merged(lower, upper, r),
        json_wf(r),
    decreases upper,
{
    match (lower, upper) {
        (JsonValue::Object(l), JsonValue::Object(u)) => {
            let ghost l0 = l@;
            let ghost u0 = u@;
            let mut out = l;
            let mut up = u;
            while up.len() > 0
                invariant
                    upper is Object,
                    upper->Object_0@ == u0,
                    lower is Object,
                    lower->Object_0@ == l0,
                    keys_distinct(u0),
                    keys_distinct(l0),
                    keys_distinct(out@),
                    forall|i: int| 0 <= i < u0.len() ==> json_wf(#[trigger] u0[i].1),
                    forall|i: int| 0 <= i < l0.len() ==> json_wf(#[trigger] l0[i].1),
                    forall|i: int| 0 <= i < out@.len() ==> json_wf(#[trigger] out@[i].1),
                    up@.len() <= u0.len(),
                    forall|j: int| 0 <= j < up@.len() ==> #[trigger] up@[j] == u0[j],
                    forall|k: Seq<char>|
                        #[trigger] has_key(out@, k) <==> has_key(l0, k) || exists|j: int|
                            up@.len() <= j < u0.len() && #[trigger] u0[j].0@ == k,
                    forall|i: int|
                        #![trigger out@[i]]
                        0 <= i < out@.len() ==> {
                            let k = out@[i].0@;
                            if exists|j: int| up@.len() <= j < u0.len() && #[trigger] u0[j].0@ == k {
                                if has_key(l0, k) {
                                    merged(l0[key_pos(l0, k)].1, u0[key_pos(u0, k)].1, out@[i].1)
                                } else {
                                    out@[i].1 == u0[key_pos(u0, k)].1
                                }
                            } else {
                                out@[i].1 == l0[key_pos(l0, k)].1
                            }
                        },
                decreases up@.len(),
            {
                let ghost ub = up@;
                let (k, uc) = up.pop().unwrap();
                let ghost j0 = up@.len() as int;
                proof {
                    assert(ub[j0] == (k, uc));
                    assert(u0[j0] == (k, uc));
                    assert(key_pos(u0, k@) == j0) by {
                        let p = key_pos(u0, k@);
                        assert(has_key(u0, k@)) by {
                            assert(u0[j0].0@ == k@);
                        }
                        if p != j0 {
                            if p < j0 {
                                assert(u0[p].0@ != u0[j0].0@);
                            } else {
                                assert(u0[j0].0@ != u0[p].0@);
                            }
                        }
                    }
                }
                let ghost ob = out@;
                proof {
                    assert(!(exists|j: int| ub.len() <= j < u0.len() && #[trigger] u0[j].0@ == k@)) by {
                        if exists|j: int| ub.len() <= j < u0.len() && #[trigger] u0[j].0@ == k@ {
                            let j = choose|j: int| ub.len() <= j < u0.len() && #[trigger] u0[j].0@ == k@;
                            assert(u0[j0].0@ != u0[j].0@);
                        }
                    }
                    assert(upper is Object);
                    assert(upper->Object_0@ == u0);
                    assert(0 <= j0 < upper->Object_0@.len());
                    assert(decreases_to!(upper => upper->Object_0));
                    assert(decreases_to!(upper->Object_0 => upper->Object_0@));
                    assert(decreases_to!(upper->Object_0@ => upper->Object_0@[j0]));
                    assert(decreases_to!(upper->Object_0@[j0] => upper->Object_0@[j0].1));
                    assert(upper->Object_0@[j0].1 == uc);
                }
                match find_key(&out, &k) {
                    Some(i) => {
                        let (lk, lc) = out.remove(i);
                        proof {
                            assert(ob[i as int] == (lk, lc));
                            assert(ob[i as int].0@ == k@);
                            assert(has_key(ob, k@));
                            assert(has_key(l0, k@));
                            assert(lc == l0[key_pos(l0, k@)].1);
                            assert(json_wf(ob[i as int].1));
                            assert(json_wf(u0[j0].1));
                        }
                        let m = merge(lc, uc);
                        out.insert(i, (lk, m));
                        proof {
                            assert(out@ == ob.update(i as int, (lk, m)));
                            assert forall|a: int| 0 <= a < out@.len() implies json_wf(#[trigger] out@[a].1) by {
                                if a != i {
                                    assert(out@[a] == ob[a]);
                                }
                            }
                            assert forall|kk: Seq<char>| #[trigger] has_key(out@, kk) <==> has_key(ob, kk) by {
                                if has_key(out@, kk) {
                                    let p = choose|p: int| 0 <= p < out@.len() && #[trigger] out@[p].0@ == kk;
                                    assert(ob[p].0@ == kk);
                                }
                                if has_key(ob, kk) {
                                    let p = choose|p: int| 0 <= p < ob.len() && #[trigger] ob[p].0@ == kk;
                                    assert(out@[p].0@ == kk);
                                }
                            }
                            assert forall|a: int, b: int| 0 <= a < b < out@.len() implies #[trigger] out@[a].0@ != #[trigger] out@[b].0@ by {
                                assert(ob[a].0@ != ob[b].0@);
                            }
                        }
                    },
                    None => {
                        out.push((k, uc));
                        proof {
                            assert(!has_key(l0, k@));
                            assert(out@ == ob.push((k, uc)));
                            assert(json_wf(u0[j0].1));
                            assert forall|a: int| 0 <= a < out@.len() implies json_wf(#[trigger] out@[a].1) by {
                                if a < ob.len() {
                                    assert(out@[a] == ob[a]);
                                }
                            }
                            assert forall|kk: Seq<char>| #[trigger] has_key(out@, kk) <==> has_key(ob, kk) || kk == k@ by {
                                if has_key(out@, kk) {
                                    let p = choose|p: int| 0 <= p < out@.len() && #[trigger] out@[p].0@ == kk;
                                    if p < ob.len() {
                                        assert(ob[p].0@ == kk);
                                    }
                                }
                                if has_key(ob, kk) {
                                    let p = choose|p: int| 0 <= p < ob.len() && #[trigger] ob[p].0@ == kk;
                                    assert(out@[p].0@ == kk);
                                }
                                if kk == k@ {
                                    assert(out@[ob.len() as int].0@ == kk);
                                }
                            }
                            assert forall|a: int, b: int| 0 <= a < b < out@.len() implies #[trigger] out@[a].0@ != #[trigger] out@[b].0@ by {
                                if b < ob.len() {
                                    assert(ob[a].0@ != ob[b].0@);
                                } else {
                                    assert(ob[a].0@ == out@[a].0@);
                                }
                            }
                        }
                    },
                }
                proof {
                    assert forall|kk: Seq<char>|
                        #[trigger] has_key(out@, kk) <==> has_key(l0, kk) || exists|j: int|
                            up@.len() <= j < u0.len() && #[trigger] u0[j].0@ == kk by {
                        if exists|j: int| up@.len() <= j < u0.len() && #[trigger] u0[j].0@ == kk {
                            let j = choose|j: int| up@.len() <= j < u0.len() && #[trigger] u0[j].0@ == kk;
                            if j != j0 {
                                assert(ub.len() <= j);
                            }
                        }
                        if kk != k@ && exists|j: int| ub.len() <= j < u0.len() && #[trigger] u0[j].0@ == kk {
                            let j = choose|j: int| ub.len() <= j < u0.len() && #[trigger] u0[j].0@ == kk;
                            assert(up@.len() <= j);
                        }
                    }
                    assert forall|i: int| 0 <= i < out@.len() implies {
                        let kk = (#[trigger] out@[i]).0@;
                        if exists|j: int| up@.len() <= j < u0.len() && #[trigger] u0[j].0@ == kk {
                            if has_key(l0, kk) {
                                merged(l0[key_pos(l0, kk)].1, u0[key_pos(u0, kk)].1, out@[i].1)
                            } else {
                                out@[i].1 == u0[key_pos(u0, kk)].1
                            }
                        } else {
                            out@[i].1 == l0[key_pos(l0, kk)].1
                        }
                    } by {
                        let kk = out@[i].0@;
                        let tb = exists|j: int| ub.len() <= j < u0.len() && #[trigger] u0[j].0@ == kk;
                        let ta = exists|j: int| up@.len() <= j < u0.len() && #[trigger] u0[j].0@ == kk;
                        if kk == k@ {
                            assert(u0[j0].0@ == kk);
                            assert(ta);
                        } else {
                            assert(ta == tb) by {
                                if ta {
                                    let j = choose|j: int| up@.len() <= j < u0.len() && #[trigger] u0[j].0@ == kk;
                                    assert(j != j0);
                                }
                                if tb {
                                    let j = choose|j: int| ub.len() <= j < u0.len() && #[trigger] u0[j].0@ == kk;
                                }
                            }
                            if i < ob.len() {
                                assert(out@[i] == ob[i]);
                            } else {
                                assert(out@[i].0@ == k@);
                            }
                        }
                    }
                }
            }
            proof {
                assert forall|kk: Seq<char>| #[trigger] has_key(u0, kk) <==> exists|j: int|
                    0 <= j < u0.len() && #[trigger] u0[j].0@ == kk by {}
            }
            JsonValue::Object(out)
        },
        (_, u) => u,
    }
}

} // verus!
