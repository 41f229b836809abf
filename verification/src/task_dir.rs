use vstd::prelude::*;
use vstd::string::StrSliceExecFns;

verus! {

/// The position of the last dot of `s` that is not its first character (the dot
/// before its extension), or 0 when there is none.
pub open spec fn ext_dot(s: Seq<char>) -> int
    decreases s.len(),
{
    if s.len() <= 1 {
        0
    } else if s.last() == '.' {
        s.len() - 1
    } else {
        ext_dot(s.drop_last())
    }
}

/// The task that a file named `s` in a task directory specifies: with no extension,
/// the task of its whole name; with the extension `json`, the task of the name
/// before it; with any other extension, none (the file is skipped).
pub open spec fn task_of_file(s: Seq<char>) -> Option<Seq<char>> {
    let k = ext_dot(s);
    if k == 0 {
        Some(s)
    } else if s.subrange(k + 1, s.len() as int) == seq!['j', 's', 'o', 'n'] {
        Some(s.subrange(0, k))
    } else {
        None
    }
}

proof fn lemma_ext_dot_prefix(s: Seq<char>, m: int)
    requires
        1 <= m <= s.len(),
        forall|j: int| m <= j < s.len() ==> s[j] != '.',
    ensures
        ext_dot(s) == ext_dot(s.subrange(0, m)),
    decreases s.len(),
{
    if s.len() > m {
        assert(s.last() != '.');
        assert(s.drop_last().subrange(0, m) =~= s.subrange(0, m));
        lemma_ext_dot_prefix(s.drop_last(), m);
    } else {
        assert(s.subrange(0, m) =~= s);
    }
}

/// The task that the file named `s` specifies (see `task_of_file`).
pub fn task_of_file_name(s: &str) -> (r: Option<String>)
    ensures
        r matches Some(t) ==> task_of_file(s@) == Some(t@),
        r is None ==> task_of_file(s@) is None,
{
    let n = s.unicode_len();
    let mut i: usize = n;
    let mut dot: usize = 0;
    while i > 1
        invariant_except_break
            dot == 0,
            forall|j: int| i <= j < n ==> s@[j] != '.',
        invariant
            n == s@.len(),
            i <= n,
            n > 1 ==> i >= 1,
        ensures
            dot == 0 ==> (forall|j: int| 1 <= j < n ==> s@[j] != '.'),
            dot > 0 ==> 1 <= dot < n && s@[dot as int] == '.' && forall|j: int| dot < j < n ==> s@[j] != '.',
        decreases i,
    {
        i = i - 1;
        if s.get_char(i) == '.' {
            dot = i;
            break;
        }
    }
    proof {
        if n <= 1 {
            assert(ext_dot(s@) == 0);
        } else if dot == 0 {
            lemma_ext_dot_prefix(s@, 1);
            assert(ext_dot(s@.subrange(0, 1)) == 0);
        } else {
            lemma_ext_dot_prefix(s@, dot + 1);
            let p = s@.subrange(0, dot + 1);
            assert(p.len() > 1 && p.last() == '.');
        }
    }
    if dot == 0 {
        return Some(String::from_str(s));
    }
    let is_json = n - dot == 5 && s.get_char(dot + 1) == 'j' && s.get_char(dot + 2) == 's' && s.get_char(dot + 3) == 'o'
        && s.get_char(dot + 4) == 'n';
    proof {
        let e = s@.subrange(dot + 1, n as int);
        if is_json {
            assert(e =~= seq!['j', 's', 'o', 'n']);
        } else if e == seq!['j', 's', 'o', 'n'] {
            assert(e.len() == 4);
            assert(e[0] == 'j' && e[1] == 's' && e[2] == 'o' && e[3] == 'n');
            assert(s@[dot + 1] == e[0]);
            assert(s@[dot + 2] == e[1]);
            assert(s@[dot + 3] == e[2]);
            assert(s@[dot + 4] == e[3]);
        }
    }
    if is_json {
        Some(String::from_str(s.substring_char(0, dot)))
    } else {
        None
    }
}

/// `groups` lists each task named by a file of `names` once, in the order of its
/// first file, with the positions of all its files in increasing order.
pub open spec fn grouped(names: Seq<String>, groups: Seq<(String, Vec<usize>)>) -> bool {
    &&& forall|p: int, q: int|
        0 <= p < groups.len() && 0 <= q < groups[p].1@.len() ==> #[trigger] groups[p].1@[q] < names.len()
            && task_of_file(names[groups[p].1@[q] as int]@) == Some(groups[p].0@)
    &&& forall|p: int| 0 <= p < groups.len() ==> #[trigger] groups[p].1@.len() > 0
    &&& forall|p: int, q1: int, q2: int|
        0 <= p < groups.len() && 0 <= q1 < q2 < groups[p].1@.len() ==> #[trigger] groups[p].1@[q1]
            < #[trigger] groups[p].1@[q2]
    &&& forall|p1: int, p2: int|
        0 <= p1 < p2 < groups.len() ==> #[trigger] groups[p1].0@ != #[trigger] groups[p2].0@
    &&& forall|p1: int, p2: int|
        0 <= p1 < p2 < groups.len() ==> #[trigger] groups[p1].1@[0] < #[trigger] groups[p2].1@[0]
    &&& forall|i: int|
        0 <= i < names.len() && #[trigger] task_of_file(names[i]@) is Some ==> exists|p: int, q: int|
            0 <= p < groups.len() && 0 <= q < groups[p].1@.len() && #[trigger] groups[p].1@[q] == i
}

proof fn lemma_grouped_extend(
    before: Seq<String>,
    after: Seq<String>,
    r0: Seq<(String, Vec<usize>)>,
    r: Seq<(String, Vec<usize>)>,
)
    requires
        grouped(before, r0),
        after.len() == before.len() + 1,
        forall|j: int| 0 <= j < before.len() ==> after[j] == before[j],
        task_of_file(after.last()@) is None,
        r == r0,
    ensures
        grouped(after, r),
{
    assert forall|i: int| 0 <= i < after.len() && #[trigger] task_of_file(after[i]@) is Some implies exists|
        p: int,
        q: int,
    | 0 <= p < r.len() && 0 <= q < r[p].1@.len() && #[trigger] r[p].1@[q] == i by {
        assert(i < before.len());
        assert(task_of_file(before[i]@) is Some);
    }
}

proof fn lemma_grouped_add(
    before: Seq<String>,
    after: Seq<String>,
    r0: Seq<(String, Vec<usize>)>,
    r: Seq<(String, Vec<usize>)>,
    p: int,
    i: usize,
)
    requires
        grouped(before, r0),
        i == before.len(),
        after.len() == i + 1,
        forall|j: int| 0 <= j < i ==> after[j] == before[j],
        0 <= p < r0.len(),
        task_of_file(after[i as int]@) == Some(r0[p].0@),
        r.len() == r0.len(),
        r[p].0 == r0[p].0,
        r[p].1@ == r0[p].1@.push(i),
        forall|x: int| 0 <= x < r.len() && x != p ==> r[x] == r0[x],
    ensures
        grouped(after, r),
{
    assert forall|x: int, q: int| 0 <= x < r.len() && 0 <= q < r[x].1@.len() implies #[trigger] r[x].1@[q]
        < after.len() && task_of_file(after[r[x].1@[q] as int]@) == Some(r[x].0@) by {
        if x == p && q == r0[p].1@.len() {
            assert(r[x].1@[q] == i);
        } else {
            let j = r0[x].1@[q];
            assert(r[x].1@[q] == j);
            assert(j < before.len() && task_of_file(before[j as int]@) == Some(r0[x].0@));
            assert(after[j as int] == before[j as int]);
        }
    }
    assert forall|x: int, q1: int, q2: int| 0 <= x < r.len() && 0 <= q1 < q2 < r[x].1@.len() implies #[trigger] r[x].1@[q1]
        < #[trigger] r[x].1@[q2] by {
        assert(r[x].1@[q1] == r0[x].1@[q1]);
        assert(r0[x].1@[q1] < before.len());
        if x == p && q2 == r0[p].1@.len() {
            assert(r[x].1@[q2] == i);
        } else {
            assert(r[x].1@[q2] == r0[x].1@[q2]);
        }
    }
    assert forall|p1: int, p2: int| 0 <= p1 < p2 < r.len() implies #[trigger] r[p1].1@[0] < #[trigger] r[p2].1@[0] by {
        assert(r0[p1].1@.len() > 0 && r0[p2].1@.len() > 0);
        assert(r[p1].1@[0] == r0[p1].1@[0]);
        assert(r[p2].1@[0] == r0[p2].1@[0]);
    }
    assert forall|p1: int, p2: int| 0 <= p1 < p2 < r.len() implies #[trigger] r[p1].0@ != #[trigger] r[p2].0@ by {
        assert(r[p1].0 == r0[p1].0);
        assert(r[p2].0 == r0[p2].0);
    }
    assert forall|j: int| 0 <= j < after.len() && #[trigger] task_of_file(after[j]@) is Some implies exists|
        x: int,
        q: int,
    | 0 <= x < r.len() && 0 <= q < r[x].1@.len() && #[trigger] r[x].1@[q] == j by {
        if j == i {
            let q = r0[p].1@.len() as int;
            assert(r[p].1@[q] == j);
        } else {
            assert(after[j] == before[j]);
            assert(task_of_file(before[j]@) is Some);
            let (x, q) = choose|x: int, q: int|
                0 <= x < r0.len() && 0 <= q < r0[x].1@.len() && #[trigger] r0[x].1@[q] == j;
            assert(r[x].1@[q] == r0[x].1@[q]);
        }
    }
    assert(forall|x: int| 0 <= x < r.len() ==> #[trigger] r[x].1@.len() > 0) by {
        assert forall|x: int| 0 <= x < r.len() implies #[trigger] r[x].1@.len() > 0 by {
            if x < r0.len() {
                assert(r0[x].1@.len() > 0);
            }
        }
    }
}

proof fn lemma_grouped_new(
    before: Seq<String>,
    after: Seq<String>,
    r0: Seq<(String, Vec<usize>)>,
    r: Seq<(String, Vec<usize>)>,
    i: usize,
)
    requires
        grouped(before, r0),
        i == before.len(),
        after.len() == i + 1,
        forall|j: int| 0 <= j < i ==> after[j] == before[j],
        r.len() == r0.len() + 1,
        forall|x: int| 0 <= x < r0.len() ==> r[x] == r0[x],
        task_of_file(after[i as int]@) == Some(r.last().0@),
        r.last().1@ == seq![i],
        forall|x: int| 0 <= x < r0.len() ==> #[trigger] r0[x].0@ != r.last().0@,
    ensures
        grouped(after, r),
{
    let n = r0.len() as int;
    assert forall|x: int, q: int| 0 <= x < r.len() && 0 <= q < r[x].1@.len() implies #[trigger] r[x].1@[q]
        < after.len() && task_of_file(after[r[x].1@[q] as int]@) == Some(r[x].0@) by {
        if x < n {
            let j = r0[x].1@[q];
            assert(j < before.len() && task_of_file(before[j as int]@) == Some(r0[x].0@));
            assert(after[j as int] == before[j as int]);
        } else {
            assert(r[x].1@[q] == i);
        }
    }
    assert forall|p1: int, p2: int| 0 <= p1 < p2 < r.len() implies #[trigger] r[p1].1@[0] < #[trigger] r[p2].1@[0] by {
        assert(r0[p1].1@.len() > 0);
        assert(r0[p1].1@[0] < before.len());
        if p2 < n {
            assert(r0[p2].1@.len() > 0);
        } else {
            assert(r[p2].1@[0] == i);
        }
    }
    assert forall|p1: int, p2: int| 0 <= p1 < p2 < r.len() implies #[trigger] r[p1].0@ != #[trigger] r[p2].0@ by {
        if p2 == n {
            assert(r0[p1].0@ != r.last().0@);
        }
    }
    assert forall|j: int| 0 <= j < after.len() && #[trigger] task_of_file(after[j]@) is Some implies exists|
        x: int,
        q: int,
    | 0 <= x < r.len() && 0 <= q < r[x].1@.len() && #[trigger] r[x].1@[q] == j by {
        if j == i {
            assert(r[n].1@[0] == j);
        } else {
            assert(task_of_file(before[j]@) is Some);
            let (x, q) = choose|x: int, q: int|
                0 <= x < r0.len() && 0 <= q < r0[x].1@.len() && #[trigger] r0[x].1@[q] == j;
            assert(r[x].1@[q] == r0[x].1@[q]);
        }
    }
    assert(forall|x: int| 0 <= x < r.len() ==> #[trigger] r[x].1@.len() > 0) by {
        assert forall|x: int| 0 <= x < r.len() implies #[trigger] r[x].1@.len() > 0 by {
            if x < r0.len() {
                assert(r0[x].1@.len() > 0);
            }
        }
    }
}

/// Group the files of the task directories (their names, directory by directory, each
/// directory in name order) by the task they specify.
pub fn group_task_files(names: &Vec<String>) -> (r: Vec<(String, Vec<usize>)>)
    ensures
        grouped(names@, r@),
{
    let mut r: Vec<(String, Vec<usize>)> = Vec::new();
    let mut i: usize = 0;
    while i < names.len()
        invariant
            i <= names@.len(),
            grouped(names@.subrange(0, i as int), r@),
        decreases names@.len() - i,
    {
        let ghost before = names@.subrange(0, i as int);
        let ghost after = names@.subrange(0, i + 1);
        let ghost r0 = r@;
        assert(forall|j: int| 0 <= j < i ==> after[j] == before[j]);
        match task_of_file_name(names[i].as_str()) {
            None => {
                proof {
                    assert(task_of_file(after[i as int]@) is None);
                    lemma_grouped_extend(before, after, r0, r@);
                }
            },
            Some(t) => {
                let mut p: usize = 0;
                while p < r.len()
                    invariant
                        p <= r@.len(),
                        forall|x: int| 0 <= x < p ==> #[trigger] r@[x].0@ != t@,
                    ensures
                        p <= r@.len(),
                        forall|x: int| 0 <= x < p ==> #[trigger] r@[x].0@ != t@,
                        p < r@.len() ==> r@[p as int].0@ == t@,
                    decreases r@.len() - p,
                {
                    if r[p].0 == t {
                        break;
                    }
                    p = p + 1;
                }
                if p < r.len() {
                    r[p].1.push(i);
                    proof {
                        lemma_grouped_add(before, after, r0, r@, p as int, i);
                    }
                } else {
                    let mut v: Vec<usize> = Vec::new();
                    v.push(i);
                    r.push((t, v));
                    proof {
                        lemma_grouped_new(before, after, r0, r@, i);
                    }
                }
            },
        }
        i = i + 1;
    }
    assert(names@.subrange(0, names@.len() as int) =~= names@);
    r
}

} // verus!
