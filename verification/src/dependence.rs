//! Function-local SSA data dependence.
//!
//! Operation results depend on their operands and on the values their
//! regions yield. Block parameters fed by a successor edge depend on the
//! terminator's operands when the edge produces them, and on their incoming
//! argument when it forwards one. Control dependence, mutation and calls are
//! not modelled.

use vstd::prelude::*;

use crate::control_flow::count_unvisited;
use crate::ir::all_below;
use crate::ir::FunctionIr;
use crate::ir::Region;
use crate::control_flow::lemma_count_unvisited_mark;
use crate::paths::lemma_closed_set_contains_reachable;
use crate::paths::lemma_reaches_self;
use crate::paths::lemma_reaches_step;
use crate::paths::reaches;
use crate::pointer_solver::list_step;

verus! {

/// Every entry of every list names a node of the graph.
pub open spec fn lists_in_range(lists: Seq<Vec<usize>>) -> bool {
    forall|s: int, k: int|
        #![trigger lists[s]@[k]]
        0 <= s < lists.len() && 0 <= k < lists[s]@.len() ==> lists[s]@[k] < lists.len()
}

/// Whether some source reaches `x` along the lists.
pub open spec fn reached_from(lists: Seq<Vec<usize>>, sources: Seq<usize>, x: int) -> bool {
    exists|j: int| #![trigger sources[j]] 0 <= j < sources.len() && reaches(list_step(lists), sources[j] as int, x)
}

/// The nodes that some source reaches along the lists.
pub fn reach_from(lists: &Vec<Vec<usize>>, sources: &[usize]) -> (reached: Vec<bool>)
    requires
        lists_in_range(lists@),
        forall|j: int| #![trigger sources@[j]] 0 <= j < sources@.len() ==> sources@[j] < lists@.len(),
    ensures
        reached@.len() == lists@.len(),
        forall|x: int|
            #![trigger reached@[x]]
            0 <= x < lists@.len() ==> (reached@[x] <==> reached_from(lists@, sources@, x)),
{
    let ghost step = list_step(lists@);
    let n = lists.len();
    let mut reached: Vec<bool> = Vec::new();
    let mut k: usize = 0;
    while k < n
        invariant
            k <= n,
            n == lists@.len(),
            reached@.len() == k,
            forall|x: int| #![trigger reached@[x]] 0 <= x < k ==> !reached@[x],
        decreases n - k,
    {
        reached.push(false);
        k = k + 1;
    }
    let mut stack: Vec<usize> = Vec::new();
    let mut j: usize = 0;
    while j < sources.len()
        invariant
            n == lists@.len(),
            step == list_step(lists@),
            lists_in_range(lists@),
            j <= sources@.len(),
            reached@.len() == n,
            forall|i: int| #![trigger sources@[i]] 0 <= i < sources@.len() ==> sources@[i] < n,
            forall|i: int| #![trigger stack@[i]] 0 <= i < stack@.len() ==> stack@[i] < n && reached@[stack@[i] as int],
            forall|x: int| #![trigger reached@[x]] 0 <= x < n && reached@[x] ==> reached_from(lists@, sources@, x),
            forall|i: int| #![trigger sources@[i]] 0 <= i < j ==> reached@[sources@[i] as int],
            forall|x: int, i: int|
                #![trigger lists@[x]@[i]]
                0 <= x < n && 0 <= i < lists@[x]@.len() && reached@[x] && !stack@.contains(x as usize)
                    ==> reached@[lists@[x]@[i] as int],
        decreases sources@.len() - j,
    {
        let source = sources[j];
        if !reached[source] {
            let ghost stack0 = stack@;
            reached.set(source, true);
            stack.push(source);
            proof {
                lemma_reaches_self(step, source as int);
                assert(sources@[j as int] == source);
                assert forall|x: int, i: int|
                    #![trigger lists@[x]@[i]]
                    0 <= x < n && 0 <= i < lists@[x]@.len() && reached@[x] && !stack@.contains(x as usize)
                        implies reached@[lists@[x]@[i] as int] by {
                    if x != source as int {
                        if stack0.contains(x as usize) {
                            let t = choose|t: int| 0 <= t < stack0.len() && stack0[t] == x as usize;
                            assert(stack@[t] == x as usize);
                        }
                    } else {
                        assert(stack@[stack0.len() as int] == source);
                    }
                }
                assert forall|i: int| #![trigger stack@[i]] 0 <= i < stack@.len() implies stack@[i] < n && reached@[stack@[i] as int] by {
                    if i < stack0.len() {
                        assert(stack0[i] == stack@[i]);
                    }
                }
            }
        }
        j = j + 1;
    }
    while stack.len() > 0
        invariant
            n == lists@.len(),
            step == list_step(lists@),
            lists_in_range(lists@),
            reached@.len() == n,
            forall|i: int| #![trigger sources@[i]] 0 <= i < sources@.len() ==> sources@[i] < n && reached@[sources@[i] as int],
            forall|i: int| #![trigger stack@[i]] 0 <= i < stack@.len() ==> stack@[i] < n && reached@[stack@[i] as int],
            forall|x: int| #![trigger reached@[x]] 0 <= x < n && reached@[x] ==> reached_from(lists@, sources@, x),
            forall|x: int, i: int|
                #![trigger lists@[x]@[i]]
                0 <= x < n && 0 <= i < lists@[x]@.len() && reached@[x] && !stack@.contains(x as usize)
                    ==> reached@[lists@[x]@[i] as int],
        decreases count_unvisited(reached@), stack@.len(),
    {
        let ghost before = stack@;
        let node = match stack.pop() {
            Some(node) => node,
            None => {
                return reached;
            },
        };
        let ghost s0 = stack@;
        let ghost unvisited0 = count_unvisited(reached@);
        proof {
            assert(before == s0.push(node));
            assert(before[s0.len() as int] == node);
            assert forall|i: int| #![trigger stack@[i]] 0 <= i < stack@.len() implies stack@[i] < n && reached@[stack@[i] as int] by {
                assert(before[i] == stack@[i]);
            }
            assert forall|x: int| 0 <= x < n && x != node as int && !stack@.contains(x as usize) implies !#[trigger] before.contains(x as usize) by {
                if before.contains(x as usize) {
                    let t = choose|t: int| 0 <= t < before.len() && before[t] == x as usize;
                    assert(t < s0.len());
                    assert(s0[t] == x as usize);
                }
            }
        }
        let mut k: usize = 0;
        while k < lists[node].len()
            invariant
                n == lists@.len(),
                step == list_step(lists@),
                lists_in_range(lists@),
                reached@.len() == n,
                node < n,
                reached@[node as int],
                k <= lists@[node as int]@.len(),
                forall|i: int| #![trigger sources@[i]] 0 <= i < sources@.len() ==> sources@[i] < n && reached@[sources@[i] as int],
                forall|i: int| #![trigger stack@[i]] 0 <= i < stack@.len() ==> stack@[i] < n && reached@[stack@[i] as int],
                forall|x: int| #![trigger reached@[x]] 0 <= x < n && reached@[x] ==> reached_from(lists@, sources@, x),
                forall|x: int, i: int|
                    #![trigger lists@[x]@[i]]
                    0 <= x < n && 0 <= i < lists@[x]@.len() && reached@[x] && x != node as int && !stack@.contains(x as usize)
                        ==> reached@[lists@[x]@[i] as int],
                forall|i: int| #![trigger lists@[node as int]@[i]] 0 <= i < k ==> reached@[lists@[node as int]@[i] as int],
                count_unvisited(reached@) <= unvisited0,
                count_unvisited(reached@) == unvisited0 ==> stack@ == s0,
            decreases lists@[node as int]@.len() - k,
        {
            let next = lists[node][k];
            proof {
                assert(lists@[node as int]@[k as int] == next);
            }
            if !reached[next] {
                let ghost flags0 = reached@;
                let ghost stack1 = stack@;
                reached.set(next, true);
                stack.push(next);
                proof {
                    lemma_count_unvisited_mark(flags0, next as int);
                    assert forall|i: int| #![trigger sources@[i]] 0 <= i < sources@.len() implies sources@[i] < n && reached@[sources@[i] as int] by {
                        assert(flags0[sources@[i] as int]);
                    }
                    assert(step(node as int, next as int));
                    let w = choose|w: int| #![trigger sources@[w]] 0 <= w < sources@.len() && reaches(step, sources@[w] as int, node as int);
                    lemma_reaches_step(step, sources@[w] as int, node as int, next as int);
                    assert(reached_from(lists@, sources@, next as int));
                    assert forall|i: int| #![trigger stack@[i]] 0 <= i < stack@.len() implies stack@[i] < n && reached@[stack@[i] as int] by {
                        if i < stack1.len() {
                            assert(stack1[i] == stack@[i]);
                        }
                    }
                    assert forall|x: int, i: int|
                        #![trigger lists@[x]@[i]]
                        0 <= x < n && 0 <= i < lists@[x]@.len() && reached@[x] && x != node as int && !stack@.contains(x as usize)
                            implies reached@[lists@[x]@[i] as int] by {
                        if x != next as int {
                            assert(flags0[x]);
                            if stack1.contains(x as usize) {
                                let t = choose|t: int| 0 <= t < stack1.len() && stack1[t] == x as usize;
                                assert(stack@[t] == x as usize);
                            }
                        } else {
                            assert(stack@[stack1.len() as int] == next);
                        }
                    }
                }
            }
            k = k + 1;
        }
        proof {
            assert forall|x: int, i: int|
                #![trigger lists@[x]@[i]]
                0 <= x < n && 0 <= i < lists@[x]@.len() && reached@[x] && !stack@.contains(x as usize)
                    implies reached@[lists@[x]@[i] as int] by {
                if x == node as int {
                    assert(reached@[lists@[node as int]@[i] as int]);
                }
            }
        }
    }
    proof {
        assert forall|u: int, v: int| #[trigger] step(u, v) && (0 <= u < n && reached@[u]) implies 0 <= v < n && reached@[v] by {
            let k = choose|k: int| #![trigger lists@[u]@[k]] 0 <= k < lists@[u]@.len() && lists@[u]@[k] as int == v;
            assert(lists@[u]@[k] < n);
        }
        assert forall|x: int|
            #![trigger reached@[x]]
            0 <= x < n implies (reached@[x] <==> reached_from(lists@, sources@, x)) by {
            if reached_from(lists@, sources@, x) {
                let w = choose|w: int| #![trigger sources@[w]] 0 <= w < sources@.len() && reaches(step, sources@[w] as int, x);
                let holds = |y: int| 0 <= y < n && reached@[y];
                lemma_closed_set_contains_reachable(step, holds, sources@[w] as int, x);
            }
        }
    }
    reached
}

/// The list is strictly increasing.
pub open spec fn sorted_ids(list: Seq<usize>) -> bool {
    forall|a: int, b: int| #![trigger list[a], list[b]] 0 <= a < b < list.len() ==> list[a] < list[b]
}

/// Adds `x` to the strictly increasing list `list` unless it is there.
fn insert_sorted(list: &mut Vec<usize>, x: usize)
    requires
        sorted_ids(old(list)@),
    ensures
        sorted_ids(final(list)@),
        final(list)@.to_set() == old(list)@.to_set().insert(x),
{
    let mut lo: usize = 0;
    let mut hi: usize = list.len();
    while lo < hi
        invariant
            list == old(list),
            sorted_ids(list@),
            lo <= hi <= list@.len(),
            forall|a: int| #![trigger list@[a]] 0 <= a < lo ==> list@[a] < x,
            forall|a: int| #![trigger list@[a]] hi <= a < list@.len() ==> list@[a] >= x,
        decreases hi - lo,
    {
        let mid = lo + (hi - lo) / 2;
        if list[mid] < x {
            proof {
                assert forall|a: int| #![trigger list@[a]] 0 <= a <= mid implies list@[a] < x by {
                    if a < mid {
                        assert(list@[a] < list@[mid as int]);
                    }
                }
            }
            lo = mid + 1;
        } else {
            proof {
                assert forall|a: int| #![trigger list@[a]] mid <= a < list@.len() implies list@[a] >= x by {
                    if a > mid {
                        assert(list@[mid as int] < list@[a]);
                    }
                }
            }
            hi = mid;
        }
    }
    let p = lo;
    let ghost s = list@;
    if p < list.len() && list[p] == x {
        assert(s.to_set().insert(x) =~= s.to_set());
        return;
    }
    list.insert(p, x);
    proof {
        let t = list@;
        assert forall|a: int, b: int| #![trigger t[a], t[b]] 0 <= a < b < t.len() implies t[a] < t[b] by {
            if b < p {
                assert(t[a] == s[a] && t[b] == s[b]);
            } else if b == p {
                assert(t[a] == s[a]);
            } else if a < p {
                assert(t[a] == s[a] && t[b] == s[b - 1]);
            } else if a == p {
                assert(t[b] == s[b - 1]);
            } else {
                assert(t[a] == s[a - 1] && t[b] == s[b - 1]);
            }
        }
        assert forall|y: usize| t.to_set().contains(y) == s.to_set().insert(x).contains(y) by {
            if t.contains(y) {
                let j = choose|j: int| 0 <= j < t.len() && t[j] == y;
                if j < p {
                    assert(s[j] == y);
                } else if j > p {
                    assert(s[j - 1] == y);
                }
            }
            if s.contains(y) {
                let j = choose|j: int| 0 <= j < s.len() && s[j] == y;
                if j < p {
                    assert(t[j] == y);
                } else {
                    assert(t[j + 1] == y);
                }
            }
            if y == x {
                assert(t[p as int] == y);
            }
        }
        assert(t.to_set() =~= s.to_set().insert(x));
    }
}

/// Every list of `lists` is strictly increasing.
pub open spec fn all_sorted(lists: Seq<Vec<usize>>) -> bool {
    forall|v: int| #![trigger lists[v]] 0 <= v < lists.len() ==> sorted_ids(lists[v]@)
}

/// Adds every id of `sources` to the list of every id of `targets`.
fn add_all(lists: &mut Vec<Vec<usize>>, targets: &Vec<usize>, sources: &Vec<usize>)
    requires
        all_sorted(old(lists)@),
        old(lists)@.len() <= usize::MAX,
        forall|j: int| #![trigger targets@[j]] 0 <= j < targets@.len() ==> targets@[j] < old(lists)@.len(),
    ensures
        all_sorted(final(lists)@),
        final(lists)@.len() == old(lists)@.len(),
        forall|v: int|
            #![trigger final(lists)@[v]]
            0 <= v < old(lists)@.len() ==> final(lists)@[v]@.to_set() == (if targets@.contains(v as usize) {
                old(lists)@[v]@.to_set().union(sources@.to_set())
            } else {
                old(lists)@[v]@.to_set()
            }),
{
    let mut j: usize = 0;
    while j < targets.len()
        invariant
            j <= targets@.len(),
            all_sorted(lists@),
            lists@.len() == old(lists)@.len(),
            old(lists)@.len() <= usize::MAX,
            forall|i: int| #![trigger targets@[i]] 0 <= i < targets@.len() ==> targets@[i] < old(lists)@.len(),
            forall|v: int|
                #![trigger lists@[v]]
                0 <= v < old(lists)@.len() ==> lists@[v]@.to_set() == (if targets@.take(j as int).contains(v as usize) {
                    old(lists)@[v]@.to_set().union(sources@.to_set())
                } else {
                    old(lists)@[v]@.to_set()
                }),
        decreases targets@.len() - j,
    {
        let target = targets[j];
        let ghost base = lists@[target as int]@.to_set();
        let mut k: usize = 0;
        while k < sources.len()
            invariant
                k <= sources@.len(),
                j < targets@.len(),
                target == targets@[j as int],
                target < old(lists)@.len(),
                all_sorted(lists@),
                lists@.len() == old(lists)@.len(),
                old(lists)@.len() <= usize::MAX,
                forall|i: int| #![trigger targets@[i]] 0 <= i < targets@.len() ==> targets@[i] < old(lists)@.len(),
                lists@[target as int]@.to_set() == base.union(sources@.take(k as int).to_set()),
                forall|v: int|
                    #![trigger lists@[v]]
                    0 <= v < old(lists)@.len() && v != target ==> lists@[v]@.to_set() == (if targets@.take(j as int).contains(v as usize) {
                        old(lists)@[v]@.to_set().union(sources@.to_set())
                    } else {
                        old(lists)@[v]@.to_set()
                    }),
            decreases sources@.len() - k,
        {
            let ghost prior = lists@;
            insert_sorted(&mut lists[target], sources[k]);
            proof {
                assert forall|v: int| #![trigger lists@[v]] 0 <= v < lists@.len() implies sorted_ids(lists@[v]@) by {
                    if v != target as int {
                        assert(lists@[v] == prior[v]);
                    }
                }
                assert forall|v: int| 0 <= v < lists@.len() && v != target as int implies #[trigger] lists@[v] == prior[v] by {}
                let prefix = sources@.take(k as int);
                let e = sources@[k as int];
                assert(sources@.take(k + 1) =~= prefix.push(e));
                assert forall|y: usize| prefix.push(e).contains(y) == (prefix.contains(y) || y == e) by {
                    if prefix.push(e).contains(y) {
                        let i = choose|i: int| 0 <= i < prefix.len() + 1 && prefix.push(e)[i] == y;
                        if i < prefix.len() {
                            assert(prefix[i] == y);
                        }
                    }
                    if prefix.contains(y) {
                        let i = choose|i: int| 0 <= i < prefix.len() && prefix[i] == y;
                        assert(prefix.push(e)[i] == y);
                    }
                    if y == e {
                        assert(prefix.push(e)[prefix.len() as int] == y);
                    }
                }
                assert(lists@[target as int]@.to_set() == prior[target as int]@.to_set().insert(e));
                assert(prior[target as int]@.to_set() == base.union(prefix.to_set()));
                assert forall|y: usize| lists@[target as int]@.to_set().contains(y) == base.union(sources@.take(k + 1).to_set()).contains(y) by {
                    assert(sources@.take(k + 1).contains(y) == prefix.push(e).contains(y));
                    assert(prefix.push(e).contains(y) == (prefix.contains(y) || y == e));
                    assert(prefix.to_set().contains(y) == prefix.contains(y));
                    assert(sources@.take(k + 1).to_set().contains(y) == sources@.take(k + 1).contains(y));
                }
                assert(lists@[target as int]@.to_set() =~= base.union(sources@.take(k + 1).to_set()));
            }
            k = k + 1;
        }
        proof {
            assert(sources@.take(sources@.len() as int) =~= sources@);
            let prefix = targets@.take(j as int);
            assert(targets@.take(j + 1) =~= prefix.push(target));
            assert forall|v: int|
                #![trigger lists@[v]]
                0 <= v < old(lists)@.len() implies lists@[v]@.to_set() == (if targets@.take(j + 1).contains(v as usize) {
                    old(lists)@[v]@.to_set().union(sources@.to_set())
                } else {
                    old(lists)@[v]@.to_set()
                }) by {
                let now = targets@.take(j + 1);
                if now.contains(v as usize) && v != target as int {
                    let i = choose|i: int| 0 <= i < now.len() && now[i] == v as usize;
                    assert(prefix[i] == v as usize);
                }
                if prefix.contains(v as usize) {
                    let i = choose|i: int| 0 <= i < prefix.len() && prefix[i] == v as usize;
                    assert(now[i] == v as usize);
                }
                if v == target as int {
                    assert(now[j as int] == target);
                    if prefix.contains(v as usize) {
                        assert(base =~= old(lists)@[v]@.to_set().union(sources@.to_set()));
                        assert(base.union(sources@.to_set()) =~= base);
                    }
                }
            }
        }
        j = j + 1;
    }
    proof {
        assert(targets@.take(targets@.len() as int) =~= targets@);
    }
}

/// Adds each dependency `(value, input)` of `pairs` to the list of `value`.
fn add_pairs(lists: &mut Vec<Vec<usize>>, pairs: &Vec<(usize, usize)>)
    requires
        all_sorted(old(lists)@),
        old(lists)@.len() <= usize::MAX,
        forall|j: int| #![trigger pairs@[j]] 0 <= j < pairs@.len() ==> pairs@[j].0 < old(lists)@.len(),
    ensures
        all_sorted(final(lists)@),
        final(lists)@.len() == old(lists)@.len(),
        forall|v: int|
            #![trigger final(lists)@[v]]
            0 <= v < old(lists)@.len() ==> final(lists)@[v]@.to_set() == old(lists)@[v]@.to_set().union(
                Set::new(|w: usize| pairs@.contains((v as usize, w))),
            ),
{
    let mut j: usize = 0;
    while j < pairs.len()
        invariant
            j <= pairs@.len(),
            all_sorted(lists@),
            lists@.len() == old(lists)@.len(),
            old(lists)@.len() <= usize::MAX,
            forall|i: int| #![trigger pairs@[i]] 0 <= i < pairs@.len() ==> pairs@[i].0 < old(lists)@.len(),
            forall|v: int|
                #![trigger lists@[v]]
                0 <= v < old(lists)@.len() ==> lists@[v]@.to_set() == old(lists)@[v]@.to_set().union(
                    Set::new(|w: usize| pairs@.take(j as int).contains((v as usize, w))),
                ),
        decreases pairs@.len() - j,
    {
        let (value, input) = pairs[j];
        let ghost prior = lists@;
        insert_sorted(&mut lists[value], input);
        proof {
            assert forall|v: int| #![trigger lists@[v]] 0 <= v < lists@.len() implies sorted_ids(lists@[v]@) by {
                if v != value as int {
                    assert(lists@[v] == prior[v]);
                }
            }
            let prefix = pairs@.take(j as int);
            let now = pairs@.take(j + 1);
            assert(now =~= prefix.push((value, input)));
            assert forall|v: int|
                #![trigger lists@[v]]
                0 <= v < old(lists)@.len() implies lists@[v]@.to_set() == old(lists)@[v]@.to_set().union(
                    Set::new(|w: usize| now.contains((v as usize, w))),
                ) by {
                if v != value as int {
                    assert(lists@[v] == prior[v]);
                }
                assert forall|w: usize| #[trigger] now.contains((v as usize, w)) == (prefix.contains((v as usize, w)) || (v as usize == value && w == input)) by {
                    if now.contains((v as usize, w)) {
                        let i = choose|i: int| 0 <= i < now.len() && now[i] == (v as usize, w);
                        if i < prefix.len() {
                            assert(prefix[i] == (v as usize, w));
                        }
                    }
                    if prefix.contains((v as usize, w)) {
                        let i = choose|i: int| 0 <= i < prefix.len() && prefix[i] == (v as usize, w);
                        assert(now[i] == (v as usize, w));
                    }
                    if v as usize == value && w == input {
                        assert(now[j as int] == (value, input));
                    }
                }
                assert(lists@[v]@.to_set() =~= old(lists)@[v]@.to_set().union(
                    Set::new(|w: usize| now.contains((v as usize, w))),
                ));
            }
        }
        j = j + 1;
    }
    proof {
        assert(pairs@.take(pairs@.len() as int) =~= pairs@);
    }
}

/// How one successor edge feeds the parameters of its target block.
pub struct DependenceSuccessor {
    /// Parameters whose values the edge produces from the terminator's operands.
    pub produced: Vec<usize>,
    /// Parameters fed by forwarding an argument: `(parameter, argument)`.
    pub forwarded: Vec<(usize, usize)>,
}

/// The values one operation reads and defines.
pub struct DependenceOperation {
    /// The explicit operands.
    pub operands: Vec<usize>,
    /// The results.
    pub results: Vec<usize>,
    /// The values yielded by the operation's regions.
    pub yielded: Vec<usize>,
    /// The successor edges of a terminator.
    pub successors: Vec<DependenceSuccessor>,
}

/// Whether successor `successor` of an operation with operands `operands`
/// makes `value` depend directly on `input`.
pub open spec fn successor_direct(successor: DependenceSuccessor, operands: Seq<usize>, value: usize, input: usize) -> bool {
    (successor.produced@.contains(value) && operands.contains(input)) || successor.forwarded@.contains(
        (value, input),
    )
}

/// Whether one of the first `k` successors of `operation` makes `value` depend directly on `input`.
pub open spec fn successors_direct_upto(operation: DependenceOperation, k: int, value: usize, input: usize) -> bool {
    exists|i: int|
        #![trigger operation.successors@[i]]
        0 <= i < k && successor_direct(operation.successors@[i], operation.operands@, value, input)
}

/// Whether `operation` makes `value` depend directly on `input`.
pub open spec fn operation_direct(operation: DependenceOperation, value: usize, input: usize) -> bool {
    ||| operation.results@.contains(value) && (operation.operands@.contains(input)
        || operation.yielded@.contains(input))
    ||| exists|k: int|
        #![trigger operation.successors@[k]]
        0 <= k < operation.successors@.len() && successor_direct(
            operation.successors@[k],
            operation.operands@,
            value,
            input,
        )
}

/// Whether some operation makes `value` depend directly on `input`.
pub open spec fn direct_dependency(operations: Seq<DependenceOperation>, value: usize, input: usize) -> bool {
    exists|j: int| #![trigger operations[j]] 0 <= j < operations.len() && operation_direct(operations[j], value, input)
}

/// Every value an operation names is below `count`.
pub open spec fn operation_in_range(operation: DependenceOperation, count: nat) -> bool {
    &&& forall|i: int| #![trigger operation.operands@[i]] 0 <= i < operation.operands@.len() ==> operation.operands@[i] < count
    &&& forall|i: int| #![trigger operation.results@[i]] 0 <= i < operation.results@.len() ==> operation.results@[i] < count
    &&& forall|i: int| #![trigger operation.yielded@[i]] 0 <= i < operation.yielded@.len() ==> operation.yielded@[i] < count
    &&& forall|k: int, i: int|
        #![trigger operation.successors@[k].produced@[i]]
        0 <= k < operation.successors@.len() && 0 <= i < operation.successors@[k].produced@.len()
            ==> operation.successors@[k].produced@[i] < count
    &&& forall|k: int, i: int|
        #![trigger operation.successors@[k].forwarded@[i]]
        0 <= k < operation.successors@.len() && 0 <= i < operation.successors@[k].forwarded@.len()
            ==> operation.successors@[k].forwarded@[i].0 < count && operation.successors@[k].forwarded@[i].1 < count
}

/// The values the regions `owned` yield, region by region.
pub open spec fn regions_yielded(regions: Seq<Region>, owned: Seq<usize>) -> Seq<usize>
    decreases owned.len(),
{
    if owned.len() == 0 {
        Seq::empty()
    } else {
        regions_yielded(regions, owned.drop_last()) + regions[owned.last() as int].yielded@
    }
}

/// Whether operation `j` of `function` makes `value` depend directly on
/// `input`: `value` is one of its results and `input` one of its operands or
/// a value its regions yield, or one of its successors makes it so.
pub open spec fn function_operation_direct(function: FunctionIr, j: int, value: usize, input: usize) -> bool {
    let operation = function.operations@[j];
    ||| operation.results@.contains(value) && (operation.operands@.contains(input) || regions_yielded(
        function.regions@,
        operation.regions@,
    ).contains(input))
    ||| exists|k: int|
        #![trigger operation.successors@[k]]
        0 <= k < operation.successors@.len() && successor_direct(operation.successors@[k], operation.operands@, value, input)
}

/// Whether some operation of `function` makes `value` depend directly on `input`.
pub open spec fn function_direct_dependency(function: FunctionIr, value: usize, input: usize) -> bool {
    exists|j: int|
        #![trigger function.operations@[j]]
        0 <= j < function.operations@.len() && function_operation_direct(function, j, value, input)
}

/// Every value an operation of `function` names, and every value its
/// regions yield, is a value of the function, and every region an operation
/// owns is a region of it.
pub open spec fn dependence_ready(function: FunctionIr) -> bool {
    let values = function.value_count as int;
    let regions = function.regions@;
    &&& forall|j: int|
        #![trigger function.operations@[j]]
        0 <= j < function.operations@.len() ==> {
            let operation = function.operations@[j];
            &&& all_below(operation.operands@, values)
            &&& all_below(operation.results@, values)
            &&& all_below(operation.regions@, regions.len() as int)
            &&& forall|k: int, i: int|
                #![trigger operation.successors@[k].produced@[i]]
                0 <= k < operation.successors@.len() && 0 <= i < operation.successors@[k].produced@.len()
                    ==> operation.successors@[k].produced@[i] < values
            &&& forall|k: int, i: int|
                #![trigger operation.successors@[k].forwarded@[i]]
                0 <= k < operation.successors@.len() && 0 <= i < operation.successors@[k].forwarded@.len()
                    ==> operation.successors@[k].forwarded@[i].0 < values && operation.successors@[k].forwarded@[i].1 < values
        }
    &&& forall|r: int| #![trigger regions[r]] 0 <= r < regions.len() ==> all_below(regions[r].yielded@, values)
}

impl DependenceOperation {
    /// Whether this operation is the dependence view of operation `j` of
    /// `function`: the same operands, results and successor edges, and the
    /// values its regions yield.
    pub open spec fn describes(self, function: FunctionIr, j: int) -> bool {
        let operation = function.operations@[j];
        &&& self.operands@ == operation.operands@
        &&& self.results@ == operation.results@
        &&& self.yielded@ == regions_yielded(function.regions@, operation.regions@)
        &&& self.successors@.len() == operation.successors@.len()
        &&& forall|k: int|
            #![trigger self.successors@[k]]
            0 <= k < self.successors@.len() ==> self.successors@[k].produced@ == operation.successors@[k].produced@
                && self.successors@[k].forwarded@ == operation.successors@[k].forwarded@
    }

    /// The dependence view of operation `j` of `function`.
    pub fn of_operation(function: &FunctionIr, j: usize) -> (operation: Self)
        requires
            j < function.operations@.len(),
            all_below(function.operations@[j as int].regions@, function.regions@.len() as int),
        ensures
            operation.describes(*function, j as int),
    {
        let source = &function.operations[j];
        let mut successors: Vec<DependenceSuccessor> = Vec::new();
        let mut k: usize = 0;
        while k < source.successors.len()
            invariant
                k <= source.successors@.len(),
                successors@.len() == k,
                forall|q: int|
                    #![trigger successors@[q]]
                    0 <= q < k ==> successors@[q].produced@ == source.successors@[q].produced@
                        && successors@[q].forwarded@ == source.successors@[q].forwarded@,
            decreases source.successors.len() - k,
        {
            let successor = &source.successors[k];
            successors.push(
                DependenceSuccessor { produced: copy_all(&successor.produced), forwarded: copy_all(&successor.forwarded) },
            );
            k = k + 1;
        }
        DependenceOperation {
            operands: copy_all(&source.operands),
            results: copy_all(&source.results),
            yielded: yielded_values(&function.regions, &source.regions),
            successors,
        }
    }
}

/// A copy of `values`.
pub(crate) fn copy_all<T: Copy>(values: &Vec<T>) -> (copy: Vec<T>)
    ensures
        copy@ == values@,
{
    let mut copy: Vec<T> = Vec::new();
    let mut i: usize = 0;
    while i < values.len()
        invariant
            i <= values@.len(),
            copy@ == values@.take(i as int),
        decreases values.len() - i,
    {
        copy.push(values[i]);
        proof {
            assert(values@.take(i + 1) =~= values@.take(i as int).push(values@[i as int]));
        }
        i = i + 1;
    }
    proof {
        assert(values@.take(values@.len() as int) =~= values@);
    }
    copy
}

/// The values the regions `owned` yield, region by region.
fn yielded_values(regions: &Vec<Region>, owned: &Vec<usize>) -> (yielded: Vec<usize>)
    requires
        all_below(owned@, regions@.len() as int),
    ensures
        yielded@ == regions_yielded(regions@, owned@),
{
    let mut yielded: Vec<usize> = Vec::new();
    let mut k: usize = 0;
    while k < owned.len()
        invariant
            k <= owned@.len(),
            all_below(owned@, regions@.len() as int),
            yielded@ == regions_yielded(regions@, owned@.take(k as int)),
        decreases owned.len() - k,
    {
        let region = &regions[owned[k]];
        let ghost base = yielded@;
        let mut i: usize = 0;
        while i < region.yielded.len()
            invariant
                i <= region.yielded@.len(),
                yielded@ == base + region.yielded@.take(i as int),
            decreases region.yielded.len() - i,
        {
            yielded.push(region.yielded[i]);
            proof {
                assert(base + region.yielded@.take(i + 1) =~= (base + region.yielded@.take(i as int)).push(region.yielded@[i as int]));
            }
            i = i + 1;
        }
        proof {
            assert(region.yielded@.take(region.yielded@.len() as int) =~= region.yielded@);
            assert(owned@.take(k + 1).drop_last() =~= owned@.take(k as int));
            assert(owned@.take(k + 1).last() == owned@[k as int]);
        }
        k = k + 1;
    }
    proof {
        assert(owned@.take(owned@.len() as int) =~= owned@);
    }
    yielded
}

/// Every value the regions `owned` yield is below `values` when every
/// region's yields are.
proof fn lemma_regions_yielded_below(regions: Seq<Region>, owned: Seq<usize>, values: int)
    requires
        all_below(owned, regions.len() as int),
        forall|r: int| #![trigger regions[r]] 0 <= r < regions.len() ==> all_below(regions[r].yielded@, values),
    ensures
        all_below(regions_yielded(regions, owned), values),
    decreases owned.len(),
{
    if owned.len() > 0 {
        lemma_regions_yielded_below(regions, owned.drop_last(), values);
        let last = owned.last() as int;
        assert(owned[owned.len() - 1] < regions.len());
        assert(all_below(regions[last].yielded@, values));
        let all = regions_yielded(regions, owned);
        let front = regions_yielded(regions, owned.drop_last());
        assert forall|i: int| 0 <= i < all.len() implies #[trigger] all[i] < values by {
            if i >= front.len() {
                assert(all[i] == regions[last].yielded@[i - front.len()]);
            }
        }
    }
}

/// The dependence view of an operation says what the operation does.
proof fn lemma_describes_direct(function: FunctionIr, j: int, operation: DependenceOperation, value: usize, input: usize)
    requires
        0 <= j < function.operations@.len(),
        operation.describes(function, j),
    ensures
        operation_direct(operation, value, input) == function_operation_direct(function, j, value, input),
{
    let source = function.operations@[j];
    if exists|k: int|
        #![trigger operation.successors@[k]]
        0 <= k < operation.successors@.len() && successor_direct(operation.successors@[k], operation.operands@, value, input) {
        let k = choose|k: int|
            #![trigger operation.successors@[k]]
            0 <= k < operation.successors@.len() && successor_direct(operation.successors@[k], operation.operands@, value, input);
        assert(successor_direct(source.successors@[k], source.operands@, value, input));
    }
    if exists|k: int|
        #![trigger source.successors@[k]]
        0 <= k < source.successors@.len() && successor_direct(source.successors@[k], source.operands@, value, input) {
        let k = choose|k: int|
            #![trigger source.successors@[k]]
            0 <= k < source.successors@.len() && successor_direct(source.successors@[k], source.operands@, value, input);
        assert(operation.successors@[k].produced@ == source.successors@[k].produced@);
        assert(successor_direct(operation.successors@[k], operation.operands@, value, input));
    }
}

/// Immutable direct data-dependence edges for one function snapshot.
pub struct FunctionValueDependenceAnalysis {
    direct_dependencies: Vec<Vec<usize>>,
}

impl FunctionValueDependenceAnalysis {
    #[verifier::type_invariant]
    spec fn well_formed(self) -> bool {
        &&& all_sorted(self.direct_dependencies@)
        &&& lists_in_range(self.direct_dependencies@)
    }

    /// The direct inputs of every value.
    pub closed spec fn spec_direct(&self) -> Seq<Vec<usize>> {
        self.direct_dependencies@
    }

    /// Computes the direct dependencies of every value of `function`: a
    /// result depends on the operands of its operation and the values the
    /// operation's regions yield; a block parameter depends on the
    /// terminator's operands when the edge produces it, and on its incoming
    /// argument when the edge forwards one.
    pub fn analyze(function: &FunctionIr) -> (analysis: Self)
        requires
            dependence_ready(*function),
        ensures
            analysis.spec_direct().len() == function.value_count,
            forall|v: int|
                #![trigger analysis.spec_direct()[v]]
                0 <= v < function.value_count ==> sorted_ids(analysis.spec_direct()[v]@)
                    && analysis.spec_direct()[v]@.to_set() == Set::new(|w: usize| function_direct_dependency(*function, v as usize, w)),
    {
        let mut operations: Vec<DependenceOperation> = Vec::new();
        let mut j: usize = 0;
        while j < function.operations.len()
            invariant
                j <= function.operations@.len(),
                operations@.len() == j,
                dependence_ready(*function),
                forall|q: int| #![trigger operations@[q]] 0 <= q < j ==> operations@[q].describes(*function, q),
                forall|q: int|
                    #![trigger operations@[q]]
                    0 <= q < j ==> operation_in_range(operations@[q], function.value_count as nat),
            decreases function.operations.len() - j,
        {
            proof {
                assert(all_below(function.operations@[j as int].regions@, function.regions@.len() as int));
            }
            let operation = DependenceOperation::of_operation(function, j);
            proof {
                let source = function.operations@[j as int];
                lemma_regions_yielded_below(function.regions@, source.regions@, function.value_count as int);
                assert(operation.operands@ == source.operands@);
                assert forall|k: int, i: int|
                    #![trigger operation.successors@[k].produced@[i]]
                    0 <= k < operation.successors@.len() && 0 <= i < operation.successors@[k].produced@.len()
                        implies operation.successors@[k].produced@[i] < function.value_count by {
                    assert(operation.successors@[k].produced@ == source.successors@[k].produced@);
                    assert(source.successors@[k].produced@[i] < function.value_count);
                }
                assert forall|k: int, i: int|
                    #![trigger operation.successors@[k].forwarded@[i]]
                    0 <= k < operation.successors@.len() && 0 <= i < operation.successors@[k].forwarded@.len()
                        implies operation.successors@[k].forwarded@[i].0 < function.value_count
                        && operation.successors@[k].forwarded@[i].1 < function.value_count by {
                    assert(operation.successors@[k].forwarded@ == source.successors@[k].forwarded@);
                    assert(source.successors@[k].forwarded@[i].0 < function.value_count);
                }
            }
            operations.push(operation);
            j = j + 1;
        }
        let analysis = Self::analyze_operations(function.value_count, &operations);
        proof {
            assert forall|v: int|
                #![trigger analysis.spec_direct()[v]]
                0 <= v < function.value_count implies analysis.spec_direct()[v]@.to_set() == Set::new(
                    |w: usize| function_direct_dependency(*function, v as usize, w),
                ) by {
                assert forall|w: usize|
                    direct_dependency(operations@, v as usize, w) == #[trigger] function_direct_dependency(*function, v as usize, w) by {
                    if direct_dependency(operations@, v as usize, w) {
                        let i = choose|i: int|
                            #![trigger operations@[i]]
                            0 <= i < operations@.len() && operation_direct(operations@[i], v as usize, w);
                        lemma_describes_direct(*function, i, operations@[i], v as usize, w);
                        assert(function_operation_direct(*function, i, v as usize, w));
                    }
                    if function_direct_dependency(*function, v as usize, w) {
                        let i = choose|i: int|
                            #![trigger function.operations@[i]]
                            0 <= i < function.operations@.len() && function_operation_direct(*function, i, v as usize, w);
                        lemma_describes_direct(*function, i, operations@[i], v as usize, w);
                        assert(operation_direct(operations@[i], v as usize, w));
                    }
                }
                assert(Set::new(|w: usize| direct_dependency(operations@, v as usize, w)) =~= Set::new(
                    |w: usize| function_direct_dependency(*function, v as usize, w),
                ));
            }
        }
        analysis
    }

    /// Computes the direct dependencies of `value_count` values defined and
    /// read by `operations`.
    pub fn analyze_operations(value_count: usize, operations: &Vec<DependenceOperation>) -> (analysis: Self)
        requires
            forall|j: int| #![trigger operations@[j]] 0 <= j < operations@.len() ==> operation_in_range(operations@[j], value_count as nat),
        ensures
            analysis.spec_direct().len() == value_count,
            forall|v: int|
                #![trigger analysis.spec_direct()[v]]
                0 <= v < value_count ==> sorted_ids(analysis.spec_direct()[v]@)
                    && analysis.spec_direct()[v]@.to_set() == Set::new(|w: usize| direct_dependency(operations@, v as usize, w)),
    {
        let mut lists: Vec<Vec<usize>> = Vec::new();
        let mut k: usize = 0;
        while k < value_count
            invariant
                k <= value_count,
                lists@.len() == k,
                forall|v: int| #![trigger lists@[v]] 0 <= v < k ==> lists@[v]@.len() == 0,
            decreases value_count - k,
        {
            lists.push(Vec::new());
            k = k + 1;
        }
        proof {
            assert forall|v: int| #![trigger lists@[v]] 0 <= v < lists@.len() implies sorted_ids(lists@[v]@) by {}
            assert forall|v: int| #![trigger lists@[v]] 0 <= v < lists@.len() implies lists@[v]@.to_set() == Set::new(|w: usize| direct_dependency(operations@.take(0), v as usize, w)) by {
                assert(lists@[v]@.to_set() =~= Set::new(|w: usize| direct_dependency(operations@.take(0), v as usize, w)));
            }
        }
        let mut j: usize = 0;
        while j < operations.len()
            invariant
                j <= operations@.len(),
                lists@.len() == value_count,
                all_sorted(lists@),
                forall|i: int| #![trigger operations@[i]] 0 <= i < operations@.len() ==> operation_in_range(operations@[i], value_count as nat),
                forall|v: int|
                    #![trigger lists@[v]]
                    0 <= v < value_count ==> lists@[v]@.to_set() == Set::new(|w: usize| direct_dependency(operations@.take(j as int), v as usize, w)),
            decreases operations@.len() - j,
        {
            let operation = &operations[j];
            let ghost start = lists@;
            proof {
                assert(operation_in_range(operations@[j as int], value_count as nat));
            }
            add_all(&mut lists, &operation.results, &operation.operands);
            add_all(&mut lists, &operation.results, &operation.yielded);
            let mut k: usize = 0;
            while k < operation.successors.len()
                invariant
                    j < operations@.len(),
                    *operation == operations@[j as int],
                    operation_in_range(*operation, value_count as nat),
                    k <= operation.successors@.len(),
                    lists@.len() == value_count,
                    all_sorted(lists@),
                    start.len() == value_count,
                    forall|v: int|
                        #![trigger lists@[v]]
                        0 <= v < value_count ==> lists@[v]@.to_set() == start[v]@.to_set().union(
                            Set::new(|w: usize| (operation.results@.contains(v as usize) && (operation.operands@.contains(w)
                                || operation.yielded@.contains(w))) || successors_direct_upto(*operation, k as int, v as usize, w)),
                        ),
                decreases operation.successors@.len() - k,
            {
                let ghost before = lists@;
                let successor = &operation.successors[k];
                add_all(&mut lists, &successor.produced, &operation.operands);
                add_pairs(&mut lists, &successor.forwarded);
                proof {
                    assert forall|v: int|
                        #![trigger lists@[v]]
                        0 <= v < value_count implies lists@[v]@.to_set() == start[v]@.to_set().union(
                            Set::new(|w: usize| (operation.results@.contains(v as usize) && (operation.operands@.contains(w)
                                || operation.yielded@.contains(w))) || successors_direct_upto(*operation, k + 1, v as usize, w)),
                        ) by {
                        assert forall|w: usize| #[trigger] successors_direct_upto(*operation, k + 1, v as usize, w)
                            == (successors_direct_upto(*operation, k as int, v as usize, w)
                                || successor_direct(operation.successors@[k as int], operation.operands@, v as usize, w)) by {
                            if successors_direct_upto(*operation, k + 1, v as usize, w) {
                                let i = choose|i: int|
                                    #![trigger operation.successors@[i]]
                                    0 <= i < k + 1 && successor_direct(operation.successors@[i], operation.operands@, v as usize, w);
                                if i == k {
                                    assert(*successor == operation.successors@[k as int]);
                                }
                            }
                        }
                        assert(lists@[v]@.to_set() =~= start[v]@.to_set().union(
                            Set::new(|w: usize| (operation.results@.contains(v as usize) && (operation.operands@.contains(w)
                                || operation.yielded@.contains(w))) || successors_direct_upto(*operation, k + 1, v as usize, w)),
                        ));
                    }
                }
                k = k + 1;
            }
            proof {
                let prefix = operations@.take(j as int);
                let now = operations@.take(j + 1);
                assert(now =~= prefix.push(operations@[j as int]));
                assert forall|v: int|
                    #![trigger lists@[v]]
                    0 <= v < value_count implies lists@[v]@.to_set() == Set::new(|w: usize| direct_dependency(now, v as usize, w)) by {
                    assert forall|w: usize| #[trigger] direct_dependency(now, v as usize, w) == (direct_dependency(prefix, v as usize, w)
                        || operation_direct(operations@[j as int], v as usize, w)) by {
                        if direct_dependency(now, v as usize, w) {
                            let i = choose|i: int| #![trigger now[i]] 0 <= i < now.len() && operation_direct(now[i], v as usize, w);
                            if i < j {
                                assert(prefix[i] == now[i]);
                            }
                        }
                        if direct_dependency(prefix, v as usize, w) {
                            let i = choose|i: int| #![trigger prefix[i]] 0 <= i < prefix.len() && operation_direct(prefix[i], v as usize, w);
                            assert(now[i] == prefix[i]);
                        }
                        if operation_direct(operations@[j as int], v as usize, w) {
                            assert(now[j as int] == operations@[j as int]);
                        }
                    }
                    assert(lists@[v]@.to_set() =~= Set::new(|w: usize| direct_dependency(now, v as usize, w)));
                }
            }
            j = j + 1;
        }
        proof {
            assert(operations@.take(operations@.len() as int) =~= operations@);
        }
        proof {
            assert forall|s: int, k: int|
                #![trigger lists@[s]@[k]]
                0 <= s < lists@.len() && 0 <= k < lists@[s]@.len()
                    implies lists@[s]@[k] < lists@.len() by {
                let w = lists@[s]@[k];
                assert(lists@[s]@.to_set().contains(w));
                let i = choose|i: int| #![trigger operations@[i]] 0 <= i < operations@.len() && operation_direct(operations@[i], s as usize, w);
                assert(operation_in_range(operations@[i], value_count as nat));
                if operations@[i].operands@.contains(w) {
                    let t = choose|t: int| 0 <= t < operations@[i].operands@.len() && operations@[i].operands@[t] == w;
                    assert(operations@[i].operands@[t] < value_count);
                } else if operations@[i].results@.contains(s as usize) && operations@[i].yielded@.contains(w) {
                    let t = choose|t: int| 0 <= t < operations@[i].yielded@.len() && operations@[i].yielded@[t] == w;
                    assert(operations@[i].yielded@[t] < value_count);
                } else {
                    let q = choose|q: int|
                        #![trigger operations@[i].successors@[q]]
                        0 <= q < operations@[i].successors@.len() && successor_direct(operations@[i].successors@[q], operations@[i].operands@, s as usize, w);
                    let f = operations@[i].successors@[q].forwarded@;
                    let t = choose|t: int| 0 <= t < f.len() && f[t] == (s as usize, w);
                    assert(operations@[i].successors@[q].forwarded@[t].1 < value_count);
                }
            }
        }
        let analysis = FunctionValueDependenceAnalysis { direct_dependencies: lists };
        analysis
    }

    /// The immediate inputs of `value` in increasing order; `None` for a value the function lacks.
    pub fn direct_dependencies(&self, value: usize) -> (inputs: Option<&[usize]>)
        ensures
            match inputs {
                Some(list) => value < self.spec_direct().len() && list@ == self.spec_direct()[value as int]@,
                None => value >= self.spec_direct().len(),
            },
    {
        if value < self.direct_dependencies.len() {
            Some(self.direct_dependencies[value].as_slice())
        } else {
            None
        }
    }

    /// Every strict transitive input of `value` in increasing order, without
    /// `value` itself even on a dependence cycle; `None` for a value the
    /// function lacks.
    pub fn transitive_dependencies(&self, value: usize) -> (inputs: Option<Vec<usize>>)
        ensures
            match inputs {
                Some(list) => value < self.spec_direct().len() && sorted_ids(list@) && forall|x: usize|
                    #![trigger list@.contains(x)]
                    list@.contains(x) <==> (x != value && x < self.spec_direct().len() && reached_from(
                        self.spec_direct(),
                        self.spec_direct()[value as int]@,
                        x as int,
                    )),
                None => value >= self.spec_direct().len(),
            },
    {
        proof {
            use_type_invariant(self);
        }
        if value >= self.direct_dependencies.len() {
            return None;
        }
        let reached = reach_from(&self.direct_dependencies, self.direct_dependencies[value].as_slice());
        let mut inputs: Vec<usize> = Vec::new();
        let mut x: usize = 0;
        while x < reached.len()
            invariant
                x <= reached@.len(),
                reached@.len() == self.direct_dependencies@.len(),
                value < reached@.len(),
                forall|y: int|
                    #![trigger reached@[y]]
                    0 <= y < reached@.len() ==> (reached@[y] <==> reached_from(
                        self.direct_dependencies@,
                        self.direct_dependencies@[value as int]@,
                        y,
                    )),
                sorted_ids(inputs@),
                forall|i: int| #![trigger inputs@[i]] 0 <= i < inputs@.len() ==> inputs@[i] < x,
                forall|y: usize|
                    #![trigger inputs@.contains(y)]
                    inputs@.contains(y) <==> (y < x && y != value && reached@[y as int]),
            decreases reached@.len() - x,
        {
            if reached[x] && x != value {
                let ghost before = inputs@;
                inputs.push(x);
                proof {
                    assert forall|y: usize| #![trigger inputs@.contains(y)] inputs@.contains(y) <==> (y < x + 1 && y != value && reached@[y as int]) by {
                        if inputs@.contains(y) && y != x {
                            let i = choose|i: int| 0 <= i < inputs@.len() && inputs@[i] == y;
                            assert(inputs@[before.len() as int] == x);
                            assert(i < before.len());
                            assert(before[i] == y);
                            assert(before.contains(y));
                        }
                        if y < x && y != value && reached@[y as int] {
                            assert(before.contains(y));
                            let i = choose|i: int| 0 <= i < before.len() && before[i] == y;
                            assert(inputs@[i] == y);
                        }
                        if y == x {
                            assert(inputs@[before.len() as int] == y);
                        }
                    }
                }
            } else {
                proof {
                    assert forall|y: usize| #![trigger inputs@.contains(y)] inputs@.contains(y) <==> (y < x + 1 && y != value && reached@[y as int]) by {
                        if inputs@.contains(y) {
                            let i = choose|i: int| 0 <= i < inputs@.len() && inputs@[i] == y;
                            assert(inputs@[i] < x);
                            assert(y < x && y != value && reached@[y as int]);
                        }
                        if y < x + 1 && y != value && reached@[y as int] {
                            assert(y != x);
                            assert(y < x);
                            assert(inputs@.contains(y));
                        }
                    }
                }
            }
            x = x + 1;
        }
        Some(inputs)
    }

    /// Whether `value` has `dependency` as a strict data dependency; `false`
    /// for a value on itself and for values the function lacks.
    pub fn depends_on(&self, value: usize, dependency: usize) -> (r: bool)
        ensures
            r == (value != dependency && value < self.spec_direct().len() && dependency
                < self.spec_direct().len() && reached_from(
                self.spec_direct(),
                self.spec_direct()[value as int]@,
                dependency as int,
            )),
    {
        proof {
            use_type_invariant(self);
        }
        if value == dependency || value >= self.direct_dependencies.len() || dependency >= self.direct_dependencies.len() {
            return false;
        }
        let reached = reach_from(&self.direct_dependencies, self.direct_dependencies[value].as_slice());
        reached[dependency]
    }
}


} // verus!
