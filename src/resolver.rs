//! Service specifications and their dependency order.
use vstd::prelude::*;
use crate::error::ToolError;
use crate::text::text_eq;

verus! {

/// How readiness of a freshly started service is judged.
#[derive(Debug, Clone)]
pub enum HealthCheck {
    /// Probe the given HTTP target.
    Http(String),
    /// Probe the given TCP port.
    Port(u16),
    /// No check: the service counts as ready at once.
    NoCheck,
}

/// One service of a project, as declared in its configuration.
#[derive(Debug, Clone)]
pub struct ServiceSpec {
    pub name: String,
    pub command: String,
    pub working_dir: Option<String>,
    /// Names of the services this one depends on, in declared order.
    pub dependencies: Vec<String>,
    pub health_check: HealthCheck,
}

/// No two services of `s` share a name.
pub open spec fn names_distinct(s: Seq<ServiceSpec>) -> bool {
    forall|i: int, j: int|
        0 <= i < s.len() && 0 <= j < s.len() && i != j ==> (#[trigger] s[i]).name@ != (#[trigger] s[j]).name@
}

/// Service `i` of `s` lists service `j` of `s` among its dependencies.
pub open spec fn depends_on(s: Seq<ServiceSpec>, i: int, j: int) -> bool {
    &&& 0 <= i < s.len()
    &&& 0 <= j < s.len()
    &&& exists|k: int| 0 <= k < s[i].dependencies@.len() && (#[trigger] s[i].dependencies@[k])@ == s[j].name@
}

/// Each service of `path` depends on the next one.
pub open spec fn is_dependency_path(s: Seq<ServiceSpec>, path: Seq<int>) -> bool {
    forall|k: int| 0 <= k < path.len() - 1 ==> #[trigger] depends_on(s, path[k], path[k + 1])
}

/// Some services of `s` depend on one another in a circle.
pub open spec fn has_cycle(s: Seq<ServiceSpec>) -> bool {
    exists|path: Seq<int>|
        path.len() > 0 && is_dependency_path(s, path) && #[trigger] depends_on(s, path.last(), path[0])
}

/// No service of `s` depends on another service of `s`.
pub open spec fn no_dependencies_among(s: Seq<ServiceSpec>) -> bool {
    forall|i: int, j: int| !#[trigger] depends_on(s, i, j)
}

/// The indices `0 .. n` in increasing order.
pub open spec fn input_order(n: int) -> Seq<usize> {
    Seq::new(n as nat, |k: int| k as usize)
}

/// Service `x` of `s` lies on a dependency cycle.
pub open spec fn on_cycle(s: Seq<ServiceSpec>, x: int) -> bool {
    exists|path: Seq<int>|
        path.len() > 0 && is_dependency_path(s, path) && #[trigger] depends_on(s, path.last(), path[0]) && path[0] == x
}

/// `x` occurs in `order` before position `p`.
pub open spec fn placed_before(order: Seq<usize>, x: int, p: int) -> bool {
    exists|q: int| 0 <= q < p && order[q] == x
}

/// `order` lists every index of a sequence of `n` services exactly once.
pub open spec fn is_arrangement(order: Seq<usize>, n: int) -> bool {
    &&& order.len() == n
    &&& order.no_duplicates()
    &&& forall|p: int| 0 <= p < order.len() ==> #[trigger] order[p] < n
}

/// Every service of `order` comes after each service of `s` that it depends on.
pub open spec fn dependencies_first(s: Seq<ServiceSpec>, order: Seq<usize>) -> bool {
    forall|p: int, j: int|
        0 <= p < order.len() && #[trigger] depends_on(s, order[p] as int, j) ==> placed_before(order, j, p)
}

/// Every service of `order` comes before each service of `s` that it depends on.
pub open spec fn dependents_first(s: Seq<ServiceSpec>, order: Seq<usize>) -> bool {
    forall|p: int, j: int|
        0 <= p < order.len() && #[trigger] depends_on(s, order[p] as int, j)
            ==> exists|q: int| p < q < order.len() && order[q] == j
}

/// Number of unvisited entries (colour 0) of `c`.
pub open spec fn white_count(c: Seq<u8>) -> nat
    decreases c.len(),
{
    if c.len() == 0 {
        0
    } else {
        white_count(c.drop_last()) + if c.last() == 0 { 1nat } else { 0nat }
    }
}

proof fn lemma_white_update(c: Seq<u8>, k: int, v: u8)
    requires
        0 <= k < c.len(),
        v != 0,
    ensures
        c[k] == 0 ==> white_count(c.update(k, v)) + 1 == white_count(c),
        c[k] != 0 ==> white_count(c.update(k, v)) == white_count(c),
    decreases c.len(),
{
    let d = c.update(k, v);
    if k == c.len() - 1 {
        assert(d.drop_last() =~= c.drop_last());
    } else {
        assert(d.drop_last() =~= c.drop_last().update(k, v));
        lemma_white_update(c.drop_last(), k, v);
    }
}

/// A service of `s` named `name`, if any (with names distinct, the only one).
pub open spec fn named(s: Seq<ServiceSpec>, name: Seq<char>) -> Option<int> {
    if exists|j: int| 0 <= j < s.len() && (#[trigger] s[j]).name@ == name {
        Some(choose|j: int| 0 <= j < s.len() && (#[trigger] s[j]).name@ == name)
    } else {
        None
    }
}

/// The depth-first walk from service `i`, over colours (0 unvisited, 1 on
/// the current path, 2 finished) and the post-order so far: `i` goes on the
/// path, its dependencies are walked in declared order, then `i` is
/// finished. The flag is false when a dependency on the current path is met.
/// `fuel` bounds the depth; it is the number of unvisited services.
pub open spec fn walk_from(s: Seq<ServiceSpec>, i: int, color: Seq<u8>, order: Seq<usize>, fuel: nat) -> (Seq<u8>, Seq<usize>, bool)
    decreases fuel, 1int, 0int,
{
    let (c, o, ok) = walk_deps(s, i, 0, color.update(i, 1), order, fuel);
    if ok {
        (c.update(i, 2), o.push(i as usize), true)
    } else {
        (c, o, false)
    }
}

/// The walk of the dependencies of service `i` from the `k`-th on.
pub open spec fn walk_deps(s: Seq<ServiceSpec>, i: int, k: int, color: Seq<u8>, order: Seq<usize>, fuel: nat) -> (Seq<u8>, Seq<usize>, bool)
    decreases fuel, 0int, s[i].dependencies@.len() - k,
{
    if k < 0 || !(0 <= i < s.len()) || k >= s[i].dependencies@.len() {
        (color, order, true)
    } else {
        match named(s, s[i].dependencies@[k]@) {
            None => walk_deps(s, i, k + 1, color, order, fuel),
            Some(j) => if color[j] == 1 {
                (color, order, false)
            } else if color[j] == 2 {
                walk_deps(s, i, k + 1, color, order, fuel)
            } else if white_count(color) < fuel {
                let (c, o, ok) = walk_from(s, j, color, order, white_count(color));
                if ok {
                    walk_deps(s, i, k + 1, c, o, fuel)
                } else {
                    (c, o, false)
                }
            } else {
                (color, order, false)
            },
        }
    }
}

/// The walk started from each unvisited service in input order, from the
/// `i`-th on.
pub open spec fn walk_all(s: Seq<ServiceSpec>, i: int, color: Seq<u8>, order: Seq<usize>) -> (Seq<u8>, Seq<usize>, bool)
    decreases s.len() - i,
{
    if i < 0 || i >= s.len() {
        (color, order, true)
    } else if color[i] == 0 {
        let (c, o, ok) = walk_from(s, i, color, order, white_count(color));
        if ok {
            walk_all(s, i + 1, c, o)
        } else {
            (c, o, false)
        }
    } else {
        walk_all(s, i + 1, color, order)
    }
}

/// The depth-first post-order of `s`, or `None` on a dependency cycle.
pub open spec fn dfs_order(s: Seq<ServiceSpec>) -> Option<Seq<usize>> {
    let (c, o, ok) = walk_all(s, 0, Seq::new(s.len(), |k: int| 0u8), Seq::empty());
    if ok {
        Some(o)
    } else {
        None
    }
}

/// The startup order is a function of the service list alone: the same list,
/// in the same order, gives the same startup order on every run.
pub proof fn lemma_startup_order_stable(s: Seq<ServiceSpec>, t: Seq<ServiceSpec>, o1: Seq<usize>, o2: Seq<usize>)
    requires
        s == t,
        dfs_order(s) == Some(o1),
        dfs_order(t) == Some(o2),
    ensures
        o1 == o2,
{
}

/// The state of the depth-first walk: colours (0 unvisited, 1 on the
/// current path, 2 finished), the finished services in post-order, and the
/// current path.
spec fn walk_state(s: Seq<ServiceSpec>, color: Seq<u8>, order: Seq<usize>, stack: Seq<int>) -> bool {
    &&& color.len() == s.len()
    &&& forall|j: int| 0 <= j < color.len() ==> #[trigger] color[j] <= 2
    &&& order.no_duplicates()
    &&& forall|p: int| 0 <= p < order.len() ==> #[trigger] order[p] < s.len()
    &&& forall|p: int| 0 <= p < order.len() ==> color[#[trigger] order[p] as int] == 2
    &&& forall|j: int| 0 <= j < color.len() && #[trigger] color[j] == 2 ==> placed_before(order, j, order.len() as int)
    &&& dependencies_first(s, order)
    &&& forall|j: int| 0 <= j < color.len() ==> (#[trigger] color[j] == 1 <==> stack.contains(j))
    &&& forall|k: int| 0 <= k < stack.len() ==> 0 <= #[trigger] stack[k] < s.len()
    &&& is_dependency_path(s, stack)
}

/// Index of a service of `services` named `name`, if any.
pub fn index_of_service(services: &Vec<ServiceSpec>, name: &str) -> (r: Option<usize>)
    ensures
        match r {
            Some(j) => j < services@.len() && services@[j as int].name@ == name@,
            None => forall|j: int| 0 <= j < services@.len() ==> (#[trigger] services@[j]).name@ != name@,
        },
{
    let mut j: usize = 0;
    while j < services.len()
        invariant
            j <= services.len(),
            forall|k: int| 0 <= k < j ==> (#[trigger] services@[k]).name@ != name@,
        decreases services.len() - j,
    {
        if text_eq(services[j].name.as_str(), name) {
            return Some(j);
        }
        j += 1;
    }
    None
}

/// Visits service `i` depth first: its dependencies are finished before it.
/// Returns `Err(j)` when service `j` is met again on the current path.
fn visit(
    services: &Vec<ServiceSpec>,
    i: usize,
    color: &mut Vec<u8>,
    order: &mut Vec<usize>,
    Ghost(stack): Ghost<Seq<int>>,
    Ghost(budget): Ghost<nat>,
) -> (r: Result<(), usize>)
    requires
        names_distinct(services@),
        walk_state(services@, old(color)@, old(order)@, stack),
        i < services@.len(),
        old(color)@[i as int] == 0,
        stack.len() > 0 ==> depends_on(services@, stack.last(), i as int),
        budget == white_count(old(color)@),
    ensures
        (final(color)@, final(order)@, r is Ok) == walk_from(services@, i as int, old(color)@, old(order)@, budget),
        r is Err ==> has_cycle(services@),
        r matches Err(c) ==> c < services@.len() && on_cycle(services@, c as int),
        r is Ok ==> {
            &&& walk_state(services@, final(color)@, final(order)@, stack)
            &&& final(color)@[i as int] == 2
            &&& white_count(final(color)@) < white_count(old(color)@)
            &&& old(order)@.len() <= final(order)@.len()
            &&& final(order)@.subrange(0, old(order)@.len() as int) == old(order)@
            &&& forall|j: int| 0 <= j < old(color)@.len() && old(color)@[j] == 2 ==> #[trigger] final(color)@[j] == 2
            &&& (forall|j: int| !#[trigger] depends_on(services@, i as int, j)) ==> {
                &&& final(order)@ == old(order)@.push(i)
                &&& final(color)@ == old(color)@.update(i as int, 2)
            }
        },
    decreases budget,
{
    let ghost s = services@;
    let ghost color0 = color@;
    let ghost order0 = order@;
    let ghost path = stack.push(i as int);
    proof {
        lemma_white_update(color@, i as int, 1);
    }
    color.set(i, 1);
    assert(is_dependency_path(s, path)) by {
        assert forall|k: int| 0 <= k < path.len() - 1 implies #[trigger] depends_on(s, path[k], path[k + 1]) by {
            if k < stack.len() - 1 {
                assert(depends_on(s, stack[k], stack[k + 1]));
            }
        }
    }
    assert(forall|j: int| 0 <= j < color@.len() ==> (#[trigger] color@[j] == 1 <==> path.contains(j))) by {
        assert forall|j: int| 0 <= j < color@.len() implies (#[trigger] color@[j] == 1 <==> path.contains(j)) by {
            if j == i {
                assert(path[path.len() - 1] == j);
            } else {
                assert(color@[j] == color0[j]);
                if stack.contains(j) {
                    let k = choose|k: int| 0 <= k < stack.len() && stack[k] == j;
                    assert(path[k] == j);
                }
                if path.contains(j) {
                    let k = choose|k: int| 0 <= k < path.len() && path[k] == j;
                    assert(stack[k] == j);
                }
            }
        }
    }
    let deps = &services[i].dependencies;
    let mut k: usize = 0;
    while k < deps.len()
        invariant
            s == services@,
            names_distinct(s),
            i < s.len(),
            deps == s[i as int].dependencies,
            k <= deps.len(),
            walk_state(s, color@, order@, path),
            path == stack.push(i as int),
            color@[i as int] == 1,
            white_count(color@) < white_count(color0),
            budget == white_count(color0),
            color0.len() == s.len(),
            color0 == old(color)@,
            order0 == old(order)@,
            order@.subrange(0, order0.len() as int) == order0,
            order0.len() <= order@.len(),
            forall|j: int| 0 <= j < color0.len() && color0[j] == 2 ==> #[trigger] color@[j] == 2,
            forall|kk: int, j: int|
                0 <= kk < k && 0 <= j < s.len() && (#[trigger] deps@[kk])@ == (#[trigger] s[j]).name@
                    ==> color@[j] == 2,
            (forall|j: int| !#[trigger] depends_on(s, i as int, j)) ==> order@ == order0 && color@ == color0.update(i as int, 1),
            walk_deps(s, i as int, 0, color0.update(i as int, 1), order0, budget)
                == walk_deps(s, i as int, k as int, color@, order@, budget),
        decreases deps.len() - k,
    {
        let found = index_of_service(services, deps[k].as_str());
        proof {
            match found {
                None => {
                    assert(named(s, deps@[k as int]@) is None);
                },
                Some(j) => {
                    let c = choose|c: int| 0 <= c < s.len() && (#[trigger] s[c]).name@ == deps@[k as int]@;
                    assert(s[j as int].name@ == deps@[k as int]@);
                    assert(c == j);
                    assert(named(s, deps@[k as int]@) == Some(j as int));
                },
            }
        }
        match found {
            None => {},
            Some(j) => {
                assert(depends_on(s, i as int, j as int)) by {
                    assert(s[i as int].dependencies@[k as int]@ == s[j as int].name@);
                }
                if color[j] == 1 {
                    proof {
                        lemma_cycle_on_path(s, path, j as int);
                        assert(walk_deps(s, i as int, k as int, color@, order@, budget) == (color@, order@, false));
                        assert(walk_from(s, i as int, color0, order0, budget) == (color@, order@, false));
                    }
                    return Err(j);
                } else if color[j] == 0 {
                    let ghost color1 = color@;
                    let ghost order1 = order@;
                    let res = visit(services, j, color, order, Ghost(path), Ghost(white_count(color1)));
                    match res {
                        Err(c) => {
                            assert(walk_deps(s, i as int, k as int, color1, order1, budget) == (color@, order@, false));
                            assert(walk_from(s, i as int, color0, order0, budget) == (color@, order@, false));
                            return Err(c);
                        },
                        Ok(()) => {
                            assert(order@.subrange(0, order0.len() as int) =~= order1.subrange(0, order0.len() as int));
                            assert forall|jj: int| 0 <= jj < color0.len() && color0[jj] == 2 implies #[trigger] color@[jj] == 2 by {
                                assert(color1[jj] == 2);
                            }
                        },
                    }
                }
            },
        }
        k += 1;
    }
    let ghost color2 = color@;
    let ghost order2 = order@;
    proof {
        lemma_white_update(color@, i as int, 2);
        assert(!order@.contains(i)) by {
            if order@.contains(i) {
                let p = choose|p: int| 0 <= p < order@.len() && order@[p] == i;
                assert(color@[order@[p] as int] == 2);
            }
        }
        assert(order@.push(i).no_duplicates()) by {
            let o = order@.push(i);
            assert forall|a: int, b: int| 0 <= a < o.len() && 0 <= b < o.len() && a != b implies o[a] != o[b] by {
                if a < order@.len() && b < order@.len() {
                    assert(o[a] == order@[a] && o[b] == order@[b]);
                } else if a == order@.len() {
                    assert(o[b] == order@[b]);
                    assert(order@.contains(o[b]));
                } else {
                    assert(o[a] == order@[a]);
                    assert(order@.contains(o[a]));
                }
            }
        }
    }
    color.set(i, 2);
    order.push(i);
    proof {
        if forall|j: int| !#[trigger] depends_on(s, i as int, j) {
            assert(color@ =~= color0.update(i as int, 2));
        }
        let n = order2.len() as int;
        assert(order@[n] == i);
        assert(order@.subrange(0, n) =~= order2);
        assert forall|p: int, j: int|
            0 <= p < order@.len() && #[trigger] depends_on(s, order@[p] as int, j) implies placed_before(order@, j, p) by {
            if p < n {
                assert(depends_on(s, order2[p] as int, j));
                let q = choose|q: int| 0 <= q < p && order2[q] == j;
                assert(order@[q] == j);
            } else {
                let kk = choose|kk: int| 0 <= kk < s[i as int].dependencies@.len() && (#[trigger] s[i as int].dependencies@[kk])@ == s[j].name@;
                assert(deps@[kk]@ == s[j].name@);
                assert(color2[j] == 2);
                assert(placed_before(order2, j, n));
                let q = choose|q: int| 0 <= q < n && order2[q] == j;
                assert(order@[q] == j);
            }
        }
        assert forall|j: int| 0 <= j < color@.len() && #[trigger] color@[j] == 2 implies placed_before(order@, j, order@.len() as int) by {
            if j == i {
                assert(order@[n] == j);
            } else {
                assert(color2[j] == 2);
                let q = choose|q: int| 0 <= q < n && order2[q] == j;
                assert(order@[q] == j);
            }
        }
        assert forall|j: int| 0 <= j < color@.len() implies (#[trigger] color@[j] == 1 <==> stack.contains(j)) by {
            if j == i {
                if stack.contains(j) {
                    let q = choose|q: int| 0 <= q < stack.len() && stack[q] == j;
                    assert(path[q] == j);
                    assert(color0[j] == 1);
                }
            } else {
                assert(color@[j] == color2[j]);
                if stack.contains(j) {
                    let q = choose|q: int| 0 <= q < stack.len() && stack[q] == j;
                    assert(path[q] == j);
                }
                if color2[j] == 1 {
                    let q = choose|q: int| 0 <= q < path.len() && path[q] == j;
                    assert(q < stack.len());
                    assert(stack[q] == j);
                }
            }
        }
        assert forall|p: int| 0 <= p < order@.len() implies color@[#[trigger] order@[p] as int] == 2 by {
            if p < n {
                assert(order@[p] == order2[p]);
            }
        }
        assert(is_dependency_path(s, stack)) by {
            assert forall|k: int| 0 <= k < stack.len() - 1 implies #[trigger] depends_on(s, stack[k], stack[k + 1]) by {
                assert(depends_on(s, path[k], path[k + 1]));
            }
        }
        assert(order@.subrange(0, order0.len() as int) =~= order0) by {
            assert(order2.subrange(0, order0.len() as int) == order0);
        }
    }
    Ok(())
}

/// The first pair of services of `services` that share a name, if any.
fn find_duplicate(services: &Vec<ServiceSpec>) -> (r: Option<usize>)
    ensures
        r is None <==> names_distinct(services@),
        r matches Some(i) ==> i < services@.len(),
{
    let n = services.len();
    let mut i: usize = 0;
    while i < n
        invariant
            n == services@.len(),
            i <= n,
            forall|a: int, b: int|
                0 <= a < i && 0 <= b < n && a != b ==> (#[trigger] services@[a]).name@ != (#[trigger] services@[b]).name@,
        decreases n - i,
    {
        let mut j: usize = 0;
        while j < n
            invariant
                n == services@.len(),
                i < n,
                j <= n,
                forall|a: int, b: int|
                    0 <= a < i && 0 <= b < n && a != b ==> (#[trigger] services@[a]).name@ != (#[trigger] services@[b]).name@,
                forall|b: int| 0 <= b < j && b != i ==> services@[i as int].name@ != (#[trigger] services@[b]).name@,
            decreases n - j,
        {
            if j != i && text_eq(services[i].name.as_str(), services[j].name.as_str()) {
                return Some(i);
            }
            j += 1;
        }
        i += 1;
    }
    None
}

/// The startup order of `services`: a depth-first walk, in input order, that
/// places each service after the services it depends on. A dependency that
/// names no service of the list is ignored. Fails on a repeated service name
/// and on a dependency cycle.
pub fn sort_services_by_dependencies(services: &Vec<ServiceSpec>) -> (r: Result<Vec<usize>, ToolError>)
    ensures
        r is Ok <==> names_distinct(services@) && !has_cycle(services@),
        r matches Ok(order) ==> is_arrangement(order@, services@.len() as int) && dependencies_first(services@, order@),
        r matches Err(ToolError::DuplicateService(_)) <==> !names_distinct(services@),
        r matches Err(e) ==> (e is DuplicateService || e is DependencyCycle),
        r matches Err(ToolError::DependencyCycle(n)) ==> exists|c: int|
            0 <= c < services@.len() && services@[c].name@ == n@ && #[trigger] on_cycle(services@, c),
        no_dependencies_among(services@) ==> (r matches Ok(order) ==> order@ == input_order(services@.len() as int)),
        r matches Ok(order) ==> dfs_order(services@) == Some(order@),
        names_distinct(services@) && dfs_order(services@) is Some ==> r is Ok,
{
    if let Some(d) = find_duplicate(services) {
        return Err(ToolError::DuplicateService(services[d].name.clone()));
    }
    let n = services.len();
    let mut color: Vec<u8> = Vec::new();
    let mut k: usize = 0;
    while k < n
        invariant
            k <= n,
            color@.len() == k,
            forall|j: int| 0 <= j < k ==> #[trigger] color@[j] == 0,
        decreases n - k,
    {
        color.push(0);
        k += 1;
    }
    let mut order: Vec<usize> = Vec::new();
    assert(order@ =~= input_order(0));
    let ghost init = Seq::new(n as nat, |k: int| 0u8);
    assert(color@ =~= init);
    let mut i: usize = 0;
    while i < n
        invariant
            n == services@.len(),
            names_distinct(services@),
            i <= n,
            walk_state(services@, color@, order@, Seq::empty()),
            forall|j: int| 0 <= j < i ==> #[trigger] color@[j] == 2,
            no_dependencies_among(services@) ==> order@ == input_order(i as int)
                && forall|j: int| i <= j < n ==> #[trigger] color@[j] == 0,
            init == Seq::new(n as nat, |k: int| 0u8),
            walk_all(services@, 0, init, Seq::empty()) == walk_all(services@, i as int, color@, order@),
        decreases n - i,
    {
        if color[i] == 0 {
            let ghost before = color@;
            let ghost order_before = order@;
            match visit(services, i, &mut color, &mut order, Ghost(Seq::empty()), Ghost(white_count(before))) {
                Err(c) => {
                    assert(walk_all(services@, i as int, before, order_before).2 == false);
                    return Err(ToolError::DependencyCycle(services[c].name.clone()));
                },
                Ok(()) => {
                    assert(walk_all(services@, i as int, before, order_before) == walk_all(services@, i + 1, color@, order@));
                    proof {
                        if no_dependencies_among(services@) {
                            assert(forall|j: int| !#[trigger] depends_on(services@, i as int, j));
                            assert(order@ =~= input_order(i + 1));
                        }
                    }
                },
            }
        } else {
            assert(walk_all(services@, i as int, color@, order@) == walk_all(services@, i + 1, color@, order@));
            assert(color@[i as int] != 1) by {
                if color@[i as int] == 1 {
                    assert(Seq::<int>::empty().contains(i as int));
                }
            }
        }
        i += 1;
    }
    assert(walk_all(services@, i as int, color@, order@) == (color@, order@, true));
    proof {
        lemma_complete_order(services@, color@, order@);
        lemma_ordered_means_acyclic(services@, order@);
    }
    Ok(order)
}

/// The shutdown order: the startup order reversed.
pub fn shutdown_order(startup: &Vec<usize>) -> (r: Vec<usize>)
    ensures
        r@ == startup@.reverse(),
{
    let mut r: Vec<usize> = Vec::new();
    let mut i: usize = startup.len();
    while i > 0
        invariant
            i <= startup.len(),
            r@ == startup@.subrange(i as int, startup@.len() as int).reverse(),
        decreases i,
    {
        i -= 1;
        r.push(startup[i]);
        assert(r@ =~= startup@.subrange(i as int, startup@.len() as int).reverse());
    }
    assert(startup@.subrange(0, startup@.len() as int) =~= startup@);
    r
}

/// Reversing an order that puts dependencies first puts dependents first: in
/// shutdown order every service stops before the services it depends on.
pub proof fn lemma_reverse_puts_dependents_first(s: Seq<ServiceSpec>, order: Seq<usize>)
    requires
        dependencies_first(s, order),
    ensures
        dependents_first(s, order.reverse()),
        order.reverse().len() == order.len(),
{
    let r = order.reverse();
    assert forall|p: int, j: int| 0 <= p < r.len() && #[trigger] depends_on(s, r[p] as int, j)
        implies exists|q: int| p < q < r.len() && r[q] == j by {
        let op = order.len() - 1 - p;
        assert(r[p] == order[op]);
        assert(depends_on(s, order[op] as int, j));
        let q0 = choose|q: int| 0 <= q < op && order[q] == j;
        let q = order.len() - 1 - q0;
        assert(r[q] == order[q0]);
    }
}

/// Once every service is finished, the walk's order lists each exactly once.
proof fn lemma_complete_order(s: Seq<ServiceSpec>, color: Seq<u8>, order: Seq<usize>)
    requires
        s.len() <= usize::MAX,
        walk_state(s, color, order, Seq::empty()),
        forall|j: int| 0 <= j < s.len() ==> #[trigger] color[j] == 2,
    ensures
        is_arrangement(order, s.len() as int),
{
    let n = s.len() as int;
    // Every index below n is placed, so the placed set has n elements.
    let placed = order.to_set();
    assert(order.to_set().len() == order.len()) by {
        order.unique_seq_to_set();
    }
    assert(placed =~= Set::new(|x: usize| (x as int) < n)) by {
        assert forall|x: usize| placed.contains(x) <==> (x as int) < n by {
            if (x as int) < n {
                assert(color[x as int] == 2);
                let q = choose|q: int| 0 <= q < order.len() && order[q] == x as int;
                assert(order[q] == x);
            }
            if placed.contains(x) {
                let q = choose|q: int| 0 <= q < order.len() && order[q] == x;
                assert(order[q] < n);
            }
        }
    }
    lemma_usize_prefix_set_len(n);
}

/// The set of `usize` values below `n` has `n` elements.
proof fn lemma_usize_prefix_set_len(n: int)
    requires
        0 <= n <= usize::MAX + 1,
    ensures
        Set::new(|x: usize| (x as int) < n).len() == n,
        Set::new(|x: usize| (x as int) < n).finite(),
    decreases n,
{
    let s = Set::new(|x: usize| (x as int) < n);
    if n == 0 {
        assert(s =~= Set::empty());
    } else {
        lemma_usize_prefix_set_len(n - 1);
        let t = Set::new(|x: usize| (x as int) < n - 1);
        assert(s =~= t.insert((n - 1) as usize));
    }
}

/// An order that places every service after its dependencies rules out a cycle.
pub proof fn lemma_ordered_means_acyclic(s: Seq<ServiceSpec>, order: Seq<usize>)
    requires
        s.len() <= usize::MAX,
        is_arrangement(order, s.len() as int),
        dependencies_first(s, order),
    ensures
        !has_cycle(s),
{
    if has_cycle(s) {
        let path = choose|path: Seq<int>|
            path.len() > 0 && is_dependency_path(s, path) && #[trigger] depends_on(s, path.last(), path[0]);
        // Positions fall along the path, yet the last service depends on the first.
        lemma_position_descends(s, order, path, path.len() - 1);
        lemma_position_of_dependency(s, order, path.last(), path[0]);
    }
}

/// The position of `x` in `order`.
spec fn position_in(order: Seq<usize>, x: int) -> int {
    choose|q: int| 0 <= q < order.len() && order[q] == x
}

/// A service's dependency sits at a smaller position.
proof fn lemma_position_of_dependency(s: Seq<ServiceSpec>, order: Seq<usize>, a: int, b: int)
    requires
        s.len() <= usize::MAX,
        is_arrangement(order, s.len() as int),
        dependencies_first(s, order),
        depends_on(s, a, b),
    ensures
        0 <= position_in(order, b) < position_in(order, a) < order.len(),
        order[position_in(order, a)] == a,
        order[position_in(order, b)] == b,
{
    lemma_in_arrangement(order, s.len() as int, a);
    let pa = position_in(order, a);
    assert(depends_on(s, order[pa] as int, b));
    let q = choose|q: int| 0 <= q < pa && order[q] == b;
    lemma_in_arrangement(order, s.len() as int, b);
    let pb = position_in(order, b);
    assert(order[pb] == order[q]);
}

/// Each index below `n` has a position in an arrangement of `n`.
proof fn lemma_in_arrangement(order: Seq<usize>, n: int, x: int)
    requires
        n <= usize::MAX,
        is_arrangement(order, n),
        0 <= x < n,
    ensures
        0 <= position_in(order, x) < order.len(),
        order[position_in(order, x)] == x,
{
    let placed = order.to_set();
    order.unique_seq_to_set();
    lemma_usize_prefix_set_len(n);
    let all = Set::new(|y: usize| (y as int) < n);
    assert(placed.subset_of(all)) by {
        assert forall|y: usize| placed.contains(y) implies all.contains(y) by {
            let q = choose|q: int| 0 <= q < order.len() && order[q] == y;
            assert(order[q] < n);
        }
    }
    vstd::set_lib::lemma_subset_equality(placed, all);
    assert(all.contains(x as usize));
    assert(placed.contains(x as usize));
    let q = choose|q: int| 0 <= q < order.len() && order[q] == x as usize;
    assert(0 <= q < order.len() && order[q] == x);
}

/// Along a dependency path, positions fall by at least one per step.
proof fn lemma_position_descends(s: Seq<ServiceSpec>, order: Seq<usize>, path: Seq<int>, k: int)
    requires
        s.len() <= usize::MAX,
        is_arrangement(order, s.len() as int),
        dependencies_first(s, order),
        is_dependency_path(s, path),
        0 <= k < path.len(),
    ensures
        position_in(order, path[k]) <= position_in(order, path[0]) - k,
    decreases k,
{
    if k > 0 {
        let j = k - 1;
        assert(depends_on(s, path[j], path[j + 1]));
        lemma_position_descends(s, order, path, k - 1);
        lemma_position_of_dependency(s, order, path[k - 1], path[k]);
    }
}

/// Meeting a service that lies on the current path closes a cycle.
proof fn lemma_cycle_on_path(s: Seq<ServiceSpec>, path: Seq<int>, j: int)
    requires
        path.len() > 0,
        is_dependency_path(s, path),
        path.contains(j),
        depends_on(s, path.last(), j),
    ensures
        has_cycle(s),
        on_cycle(s, j),
{
    let p = choose|p: int| 0 <= p < path.len() && path[p] == j;
    let cyc = path.subrange(p, path.len() as int);
    assert(cyc[0] == j);
    assert(cyc.last() == path.last());
    assert(is_dependency_path(s, cyc)) by {
        assert forall|k: int| 0 <= k < cyc.len() - 1 implies #[trigger] depends_on(s, cyc[k], cyc[k + 1]) by {
            assert(depends_on(s, path[p + k], path[p + k + 1]));
        }
    }
    assert(depends_on(s, cyc.last(), cyc[0]));
}

} // verus!
