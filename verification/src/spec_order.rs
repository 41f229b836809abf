use vstd::prelude::*;

verus! {

/// Why some new task specifications could not be ordered.
pub enum OrderError {
    /// These new tasks (by position) name upstreams that neither exist nor are new.
    MissingUpstreams(Vec<(usize, String)>),
    /// No new task is missing an upstream, so these (by position) depend on each other
    /// in a cycle, or on a task in one.
    Cycle(Vec<usize>),
}

/// A new task specification: its name and the names of its upstreams.
pub struct NewSpec {
    pub name: String,
    pub upstream: Vec<String>,
}

pub open spec fn name_of(specs: Seq<NewSpec>, i: int) -> Seq<char> {
    specs[i].name@
}

/// `u` names an existing task or one of the specifications emitted in `out`.
pub open spec fn known(built: Seq<String>, specs: Seq<NewSpec>, out: Seq<usize>, u: Seq<char>) -> bool {
    (exists|b: int| 0 <= b < built.len() && #[trigger] built[b]@ == u) || (exists|p: int|
        0 <= p < out.len() && #[trigger] name_of(specs, out[p] as int) == u)
}

/// Every upstream of specification `i` is known once `out` is emitted.
pub open spec fn ready(built: Seq<String>, specs: Seq<NewSpec>, out: Seq<usize>, i: int) -> bool {
    forall|k: int| 0 <= k < specs[i].upstream@.len() ==> known(built, specs, out, #[trigger] specs[i].upstream@[k]@)
}

/// `u` names neither an existing task nor any new specification.
pub open spec fn absent(built: Seq<String>, specs: Seq<NewSpec>, u: Seq<char>) -> bool {
    (forall|b: int| 0 <= b < built.len() ==> #[trigger] built[b]@ != u) && (forall|j: int|
        0 <= j < specs.len() ==> #[trigger] name_of(specs, j) != u)
}

/// A possible order of emission: positions of specifications, each ready once those
/// before it are emitted.
pub open spec fn derivation(built: Seq<String>, specs: Seq<NewSpec>, s: Seq<usize>) -> bool {
    forall|p: int|
        0 <= p < s.len() ==> s[p] < specs.len() && ready(built, specs, s.subrange(0, p), #[trigger] s[p] as int)
}

/// Specification `i` can be emitted in some order.  It cannot when one of its upstreams
/// neither exists nor is new, when it lies on a cycle of upstreams, or when it depends
/// on a specification that cannot.
pub open spec fn buildable(built: Seq<String>, specs: Seq<NewSpec>, i: int) -> bool {
    exists|s: Seq<usize>| derivation(built, specs, s) && #[trigger] s.contains(i as usize)
}

proof fn lemma_ready_mono(built: Seq<String>, specs: Seq<NewSpec>, a: Seq<usize>, b: Seq<usize>, i: int)
    requires
        forall|p: int| 0 <= p < a.len() ==> b.contains(#[trigger] a[p]),
        ready(built, specs, a, i),
    ensures
        ready(built, specs, b, i),
{
    assert forall|k: int| 0 <= k < specs[i].upstream@.len() implies known(built, specs, b, #[trigger] specs[i].upstream@[k]@) by {
        let u = specs[i].upstream@[k]@;
        assert(known(built, specs, a, u));
        if !(exists|x: int| 0 <= x < built.len() && #[trigger] built[x]@ == u) {
            let p = choose|p: int| 0 <= p < a.len() && #[trigger] name_of(specs, a[p] as int) == u;
            assert(b.contains(a[p]));
            let q = choose|q: int| 0 <= q < b.len() && b[q] == a[p];
            assert(name_of(specs, b[q] as int) == u);
        }
    }
}

/// Every specification that a derivation emits is in `out`, when no specification
/// left out of `out` is ready once `out` is emitted.
proof fn lemma_derivation_within(built: Seq<String>, specs: Seq<NewSpec>, s: Seq<usize>, out: Seq<usize>)
    requires
        derivation(built, specs, s),
        forall|i: int| 0 <= i < specs.len() && !out.contains(i as usize) ==> !ready(built, specs, out, i),
    ensures
        forall|p: int| 0 <= p < s.len() ==> out.contains(#[trigger] s[p]),
    decreases s.len(),
{
    if s.len() > 0 {
        let t = s.drop_last();
        assert forall|p: int| 0 <= p < t.len() implies t[p] < specs.len() && ready(built, specs, t.subrange(0, p), #[trigger] t[p] as int) by {
            assert(t.subrange(0, p) =~= s.subrange(0, p));
            assert(s[p] < specs.len() && ready(built, specs, s.subrange(0, p), s[p] as int));
        }
        lemma_derivation_within(built, specs, t, out);
        let last = s.len() - 1;
        assert(s.subrange(0, last) =~= t);
        assert(ready(built, specs, t, s[last] as int));
        assert forall|p: int| 0 <= p < t.len() implies out.contains(#[trigger] t[p]) by {}
        lemma_ready_mono(built, specs, t, out, s[last] as int);
        assert forall|p: int| 0 <= p < s.len() implies out.contains(#[trigger] s[p]) by {
            if p < last {
                assert(s[p] == t[p]);
            }
        }
    }
}

/// The specifications emitted are exactly those that can be built, when each was ready
/// as it was emitted and none left out is ready once all are.
proof fn lemma_emitted_buildable(built: Seq<String>, specs: Seq<NewSpec>, out: Seq<usize>)
    requires
        forall|p: int| 0 <= p < out.len() ==> out[p] < specs.len(),
        forall|p: int| 0 <= p < out.len() ==> ready(built, specs, out.subrange(0, p), #[trigger] out[p] as int),
        forall|i: int| 0 <= i < specs.len() && !out.contains(i as usize) ==> !ready(built, specs, out, i),
    ensures
        forall|i: int| 0 <= i < specs.len() ==> (out.contains(i as usize) <==> #[trigger] buildable(built, specs, i)),
{
    assert(derivation(built, specs, out));
    assert forall|i: int| 0 <= i < specs.len() implies (out.contains(i as usize) <==> #[trigger] buildable(
        built,
        specs,
        i,
    )) by {
        if buildable(built, specs, i) {
            let s = choose|s: Seq<usize>| derivation(built, specs, s) && #[trigger] s.contains(i as usize);
            lemma_derivation_within(built, specs, s, out);
            let p = choose|p: int| 0 <= p < s.len() && s[p] == i as usize;
            assert(out.contains(s[p]));
        }
        if out.contains(i as usize) {
            assert(derivation(built, specs, out) && out.contains(i as usize));
        }
    }
}

fn contains_name(v: &Vec<String>, u: &String) -> (r: bool)
    ensures
        r == exists|b: int| 0 <= b < v@.len() && #[trigger] v@[b]@ == u@,
{
    let mut b: usize = 0;
    while b < v.len()
        invariant
            b <= v@.len(),
            forall|c: int| 0 <= c < b ==> #[trigger] v@[c]@ != u@,
        decreases v@.len() - b,
    {
        if v[b] == *u {
            return true;
        }
        b = b + 1;
    }
    false
}

fn is_known(built: &Vec<String>, specs: &Vec<NewSpec>, out: &Vec<usize>, u: &String) -> (r: bool)
    requires
        forall|p: int| 0 <= p < out@.len() ==> out@[p] < specs@.len(),
    ensures
        r == known(built@, specs@, out@, u@),
{
    if contains_name(built, u) {
        proof {
            let b = choose|b: int| 0 <= b < built@.len() && #[trigger] built@[b]@ == u@;
            assert(built@[b]@ == u@);
            assert(known(built@, specs@, out@, u@));
        }
        return true;
    }
    let mut p: usize = 0;
    while p < out.len()
        invariant
            forall|q: int| 0 <= q < out@.len() ==> out@[q] < specs@.len(),
            p <= out@.len(),
            forall|q: int| 0 <= q < p ==> #[trigger] name_of(specs@, out@[q] as int) != u@,
        decreases out@.len() - p,
    {
        if specs[out[p]].name == *u {
            proof {
                assert(name_of(specs@, out@[p as int] as int) == u@);
            }
            return true;
        }
        p = p + 1;
    }
    false
}

fn is_ready(built: &Vec<String>, specs: &Vec<NewSpec>, out: &Vec<usize>, i: usize) -> (r: bool)
    requires
        i < specs@.len(),
        forall|p: int| 0 <= p < out@.len() ==> out@[p] < specs@.len(),
    ensures
        r == ready(built@, specs@, out@, i as int),
{
    let ups = &specs[i].upstream;
    let mut k: usize = 0;
    while k < ups.len()
        invariant
            i < specs@.len(),
            ups@ == specs@[i as int].upstream@,
            forall|p: int| 0 <= p < out@.len() ==> out@[p] < specs@.len(),
            k <= ups@.len(),
            forall|j: int| 0 <= j < k ==> known(built@, specs@, out@, #[trigger] ups@[j]@),
        decreases ups@.len() - k,
    {
        if !is_known(built, specs, out, &ups[k]) {
            return false;
        }
        k = k + 1;
    }
    true
}

/// Order new task specifications so that each comes after its upstreams: repeatedly
/// go through the specifications in order and emit each whose upstreams all exist or
/// were emitted.  Returns the positions emitted, in order, and, if some could not be
/// emitted, why.
pub fn order_specs(built: &Vec<String>, specs: &Vec<NewSpec>) -> (r: (Vec<usize>, Option<OrderError>))
    ensures
        forall|p: int| 0 <= p < r.0@.len() ==> r.0@[p] < specs@.len(),
        forall|p: int, q: int| 0 <= p < q < r.0@.len() ==> r.0@[p] != r.0@[q],
        forall|p: int| 0 <= p < r.0@.len() ==> ready(built@, specs@, r.0@.subrange(0, p), #[trigger] r.0@[p] as int),
        forall|i: int| 0 <= i < specs@.len() && !r.0@.contains(i as usize) ==> !ready(built@, specs@, r.0@, i),
        forall|i: int| 0 <= i < specs@.len() ==> (r.0@.contains(i as usize) <==> #[trigger] buildable(built@, specs@, i)),
        r.1 is None ==> forall|x: usize| x < specs@.len() ==> #[trigger] r.0@.contains(x),
        r.1 is Some ==> exists|x: usize| x < specs@.len() && !#[trigger] r.0@.contains(x),
        r.1 matches Some(OrderError::MissingUpstreams(m)) ==> m@.len() > 0 && forall|k: int|
            0 <= k < m@.len() ==> m@[k].0 < specs@.len() && !r.0@.contains(#[trigger] m@[k].0) && absent(
                built@,
                specs@,
                m@[k].1@,
            ) && exists|j: int|
                0 <= j < specs@[m@[k].0 as int].upstream@.len() && #[trigger] specs@[m@[k].0 as int].upstream@[j]@
                    == m@[k].1@,
        r.1 matches Some(OrderError::Cycle(c)) ==> (forall|i: int, j: int|
            0 <= i < specs@.len() && !r.0@.contains(i as usize) && 0 <= j < specs@[i].upstream@.len() ==> !absent(
                built@,
                specs@,
                #[trigger] specs@[i].upstream@[j]@,
            )) && (forall|x: usize| #[trigger] c@.contains(x) <==> x < specs@.len() && !r.0@.contains(x)),
{
    let n = specs.len();
    let mut done: Vec<bool> = Vec::new();
    let mut i: usize = 0;
    while i < n
        invariant
            i <= n,
            done@.len() == i,
            forall|j: int| 0 <= j < i ==> !done@[j],
        decreases n - i,
    {
        done.push(false);
        i = i + 1;
    }
    let mut out: Vec<usize> = Vec::new();
    loop
        invariant
            n == specs@.len(),
            done@.len() == n,
            forall|p: int| 0 <= p < out@.len() ==> out@[p] < n,
            forall|p: int, q: int| 0 <= p < q < out@.len() ==> out@[p] != out@[q],
            forall|j: int| 0 <= j < n ==> (#[trigger] done@[j] <==> out@.contains(j as usize)),
            forall|p: int| 0 <= p < out@.len() ==> ready(built@, specs@, out@.subrange(0, p), #[trigger] out@[p] as int),
        ensures
            n == specs@.len(),
            forall|p: int| 0 <= p < out@.len() ==> out@[p] < n,
            forall|p: int, q: int| 0 <= p < q < out@.len() ==> out@[p] != out@[q],
            forall|j: int| 0 <= j < n ==> (#[trigger] done@[j] <==> out@.contains(j as usize)),
            forall|p: int| 0 <= p < out@.len() ==> ready(built@, specs@, out@.subrange(0, p), #[trigger] out@[p] as int),
            forall|j: int| 0 <= j < n && !out@.contains(j as usize) ==> !ready(built@, specs@, out@, j),
        decreases crate::measure::count_ne(done@, true),
    {
        let ghost start = out@.len();
        let ghost c0 = crate::measure::count_ne(done@, true);
        let mut did = false;
        let mut i: usize = 0;
        while i < n
            invariant
                n == specs@.len(),
                done@.len() == n,
                i <= n,
                start <= out@.len(),
                crate::measure::count_ne(done@, true) + (out@.len() - start) <= c0,
                forall|p: int| 0 <= p < out@.len() ==> out@[p] < n,
                forall|p: int, q: int| 0 <= p < q < out@.len() ==> out@[p] != out@[q],
                forall|j: int| 0 <= j < n ==> (#[trigger] done@[j] <==> out@.contains(j as usize)),
                forall|p: int| 0 <= p < out@.len() ==> ready(built@, specs@, out@.subrange(0, p), #[trigger] out@[p] as int),
                did <==> out@.len() > start,
                !did ==> forall|j: int| 0 <= j < i && !out@.contains(j as usize) ==> !ready(built@, specs@, out@, j),
            decreases n - i,
        {
            if !done[i] && is_ready(built, specs, &out, i) {
                let ghost o0 = out@;
                let ghost d0 = done@;
                proof {
                    assert(!o0.contains(i));
                }
                out.push(i);
                done.set(i, true);
                proof {
                    crate::measure::lemma_count_ne_update(d0, true, i as int);
                }
                did = true;
                proof {
                    assert(out@.subrange(0, o0.len() as int) =~= o0);
                    assert forall|p: int| 0 <= p < out@.len() implies ready(built@, specs@, out@.subrange(0, p), #[trigger] out@[p] as int) by {
                        if p < o0.len() {
                            assert(out@.subrange(0, p) =~= o0.subrange(0, p));
                        }
                    }
                    assert forall|j: int| 0 <= j < n implies (#[trigger] done@[j] <==> out@.contains(j as usize)) by {
                        if j != i {
                            if out@.contains(j as usize) {
                                let p = choose|p: int| 0 <= p < out@.len() && out@[p] == j as usize;
                                assert(p < o0.len());
                                assert(o0[p] == j);
                            }
                            if o0.contains(j as usize) {
                                let p = choose|p: int| 0 <= p < o0.len() && o0[p] == j as usize;
                                assert(out@[p] == o0[p]);
                            }
                        } else {
                            assert(out@[o0.len() as int] == i);
                        }
                    }
                }
            }
            i = i + 1;
        }
        if !did {
            break;
        }
    }
    let mut all = true;
    let mut i: usize = 0;
    while i < n
        invariant
            n == specs@.len(),
            done@.len() == n,
            i <= n,
            forall|j: int| 0 <= j < n ==> (#[trigger] done@[j] <==> out@.contains(j as usize)),
            all == forall|j: int| 0 <= j < i ==> #[trigger] done@[j],
        decreases n - i,
    {
        if !done[i] {
            all = false;
        }
        i = i + 1;
    }
    if all {
        proof {
            assert forall|x: usize| x < n implies #[trigger] out@.contains(x) by {
                assert(done@[x as int]);
            }
        }
        proof {
            lemma_emitted_buildable(built@, specs@, out@);
        }
        return (out, None);
    }
    proof {
        let j = choose|j: int| 0 <= j < n && !#[trigger] done@[j];
        assert(!out@.contains(j as usize));
    }
    let mut missing: Vec<(usize, String)> = Vec::new();
    let mut i: usize = 0;
    while i < n
        invariant
            n == specs@.len(),
            done@.len() == n,
            i <= n,
            forall|j: int| 0 <= j < n ==> (#[trigger] done@[j] <==> out@.contains(j as usize)),
            exists|x: usize| x < n && !#[trigger] out@.contains(x),
            forall|k: int|
                0 <= k < missing@.len() ==> missing@[k].0 < n && !out@.contains(#[trigger] missing@[k].0) && absent(
                    built@,
                    specs@,
                    missing@[k].1@,
                ) && exists|j: int|
                    0 <= j < specs@[missing@[k].0 as int].upstream@.len() && #[trigger] specs@[missing@[k].0 as int].upstream@[j]@
                        == missing@[k].1@,
            missing@.len() == 0 ==> forall|x: int, j: int|
                0 <= x < i && !out@.contains(x as usize) && 0 <= j < specs@[x].upstream@.len() ==> !absent(
                    built@,
                    specs@,
                    #[trigger] specs@[x].upstream@[j]@,
                ),
        decreases n - i,
    {
        if !done[i] {
            let ups = &specs[i].upstream;
            let mut k: usize = 0;
            let ghost m0 = missing@;
            while k < ups.len()
                invariant
                    n == specs@.len(),
                    i < n,
                    !out@.contains(i),
                    ups@ == specs@[i as int].upstream@,
                    k <= ups@.len(),
                    missing@.len() >= m0.len(),
                    forall|q: int| 0 <= q < m0.len() ==> #[trigger] missing@[q] == m0[q],
                    forall|q: int|
                        0 <= q < missing@.len() ==> missing@[q].0 < n && !out@.contains(#[trigger] missing@[q].0)
                            && absent(built@, specs@, missing@[q].1@) && exists|j: int|
                            0 <= j < specs@[missing@[q].0 as int].upstream@.len() && #[trigger] specs@[missing@[q].0 as int].upstream@[j]@
                                == missing@[q].1@,
                    missing@.len() == m0.len() ==> forall|j: int|
                        0 <= j < k ==> !absent(built@, specs@, #[trigger] specs@[i as int].upstream@[j]@),
                decreases ups@.len() - k,
            {
                let u = &ups[k];
                let mut in_new = false;
                let mut j: usize = 0;
                while j < n
                    invariant
                        n == specs@.len(),
                        j <= n,
                        in_new == exists|x: int| 0 <= x < j && #[trigger] name_of(specs@, x) == u@,
                    decreases n - j,
                {
                    if specs[j].name == *u {
                        in_new = true;
                        proof {
                            assert(name_of(specs@, j as int) == u@);
                        }
                    }
                    proof {
                        assert(name_of(specs@, j as int) == specs@[j as int].name@);
                    }
                    j = j + 1;
                }
                if !in_new && !contains_name(built, u) {
                    proof {
                        assert(absent(built@, specs@, u@));
                    }
                    let ghost mb = missing@;
                    missing.push((i, u.clone()));
                    proof {
                        assert(missing@[mb.len() as int].1@ == u@);
                        assert(missing@[mb.len() as int].0 == i);
                        assert forall|q: int| 0 <= q < mb.len() implies #[trigger] missing@[q] == mb[q] by {}
                        assert(specs@[missing@[mb.len() as int].0 as int].upstream@[k as int]@ == missing@[mb.len() as int].1@);
                        assert(specs@[i as int].upstream@[k as int]@ == u@);
                        assert forall|q: int| 0 <= q < m0.len() implies #[trigger] missing@[q] == m0[q] by {
                            assert(missing@[q] == mb[q]);
                        }
                        assert forall|q: int| 0 <= q < missing@.len() implies missing@[q].0 < n && !out@.contains(
                            #[trigger] missing@[q].0,
                        ) && absent(built@, specs@, missing@[q].1@) && exists|j: int|
                            0 <= j < specs@[missing@[q].0 as int].upstream@.len() && #[trigger] specs@[missing@[q].0 as int].upstream@[j]@
                                == missing@[q].1@ by {
                            if q < mb.len() {
                                assert(missing@[q] == mb[q]);
                            } else {
                                assert(q == mb.len());
                                assert(specs@[missing@[q].0 as int].upstream@[k as int]@ == missing@[q].1@);
                            }
                        }
                    }
                } else {
                    proof {
                        assert(!absent(built@, specs@, specs@[i as int].upstream@[k as int]@));
                    }
                }
                k = k + 1;
            }
        }
        i = i + 1;
    }
    let ghost x0 = choose|x: usize| x < n && !#[trigger] out@.contains(x);
    proof {
        assert(x0 < specs@.len() && !out@.contains(x0));
    }
    if missing.len() > 0 {
        let r = (out, Some(OrderError::MissingUpstreams(missing)));
        proof {
            lemma_emitted_buildable(built@, specs@, r.0@);
            assert(x0 < specs@.len() && !r.0@.contains(x0));
        }
        return r;
    }
    let mut cyc: Vec<usize> = Vec::new();
    let mut i: usize = 0;
    while i < n
        invariant
            n == specs@.len(),
            done@.len() == n,
            i <= n,
            forall|j: int| 0 <= j < n ==> (#[trigger] done@[j] <==> out@.contains(j as usize)),
            forall|x: usize| #[trigger] cyc@.contains(x) <==> x < i && !out@.contains(x),
            x0 < n && !out@.contains(x0),
        decreases n - i,
    {
        if !done[i] {
            let ghost c0 = cyc@;
            cyc.push(i);
            proof {
                assert forall|x: usize| #[trigger] cyc@.contains(x) <==> x < i + 1 && !out@.contains(x) by {
                    if x == i {
                        assert(cyc@[c0.len() as int] == i);
                    }
                    if cyc@.contains(x) && x != i {
                        let p = choose|p: int| 0 <= p < cyc@.len() && cyc@[p] == x;
                        assert(p < c0.len());
                        assert(c0[p] == x);
                    }
                    if c0.contains(x) {
                        let p = choose|p: int| 0 <= p < c0.len() && c0[p] == x;
                        assert(cyc@[p] == x);
                    }
                }
            }
        }
        i = i + 1;
    }
    let r = (out, Some(OrderError::Cycle(cyc)));
    proof {
        lemma_emitted_buildable(built@, specs@, r.0@);
        assert(x0 < specs@.len() && !r.0@.contains(x0));
    }
    r
}

} // verus!
