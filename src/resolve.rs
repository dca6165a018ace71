use vstd::prelude::*;
use vstd::set_lib::*;

use crate::selector::{
    names, parse_selector, selector_list, selector_spec, split_selectors, Quantifier, Selector,
    SelectorError,
};

verus! {

/// One type or namespace of the metadata: its full path, the indices of the
/// nodes it depends on, and the code generated for it.
#[derive(Debug, Clone)]
pub struct MetadataNode {
    pub path: Vec<String>,
    pub dependencies: Vec<usize>,
    pub fragment: String,
}

/// The metadata graph. Nodes are identified by their index, and the index
/// order is the canonical order in which resolved nodes are emitted.
#[derive(Debug, Clone)]
pub struct MetadataGraph {
    pub nodes: Vec<MetadataNode>,
}

/// A set of nodes, by index: `members[i]` holds when node `i` is in the set.
#[derive(Debug, Clone)]
pub struct ResolutionSet {
    pub members: Vec<bool>,
}

impl ResolutionSet {
    pub open spec fn view(&self) -> Set<int> {
        Set::new(|i: int| 0 <= i < self.members@.len() && self.members@[i])
    }
}

impl MetadataGraph {
    pub open spec fn size(&self) -> int {
        self.nodes@.len() as int
    }

    pub open spec fn deps(&self, i: int) -> Seq<usize> {
        self.nodes@[i].dependencies@
    }

    pub open spec fn path_of(&self, i: int) -> Seq<Seq<char>> {
        names(self.nodes@[i].path@)
    }

    pub open spec fn fragment_of(&self, i: int) -> Seq<char> {
        self.nodes@[i].fragment@
    }

    /// Every dependency index names a node of the graph.
    pub open spec fn wf(&self) -> bool {
        forall|i: int, k: int|
            0 <= i < self.size() && 0 <= k < self.deps(i).len() ==> #[trigger] self.deps(i)[k]
                < self.size()
    }

    /// Node `i` is picked by the selector `sel` (a path and a quantifier).
    pub open spec fn selects(&self, sel: (Seq<Seq<char>>, Quantifier), i: int) -> bool {
        match sel.1 {
            Quantifier::Exact => self.path_of(i) == sel.0,
            Quantifier::Wildcard => self.path_of(i).len() == sel.0.len() + 1
                && self.path_of(i).drop_last() == sel.0,
        }
    }

    /// Node `i` is picked by the selector that the text `e` denotes.
    pub open spec fn selected_by(&self, e: Seq<char>, i: int) -> bool {
        match selector_spec(e) {
            Some(sel) => self.selects(sel, i),
            None => false,
        }
    }

    /// The text `e` is a selector that picks at least one node.
    pub open spec fn expr_ok(&self, e: Seq<char>) -> bool {
        exists|i: int| 0 <= i < self.size() && #[trigger] self.selected_by(e, i)
    }

    /// The nodes picked directly by the selector texts `es`.
    pub open spec fn seeds(&self, es: Seq<Seq<char>>) -> Set<int> {
        Set::new(
            |i: int|
                0 <= i < self.size() && exists|j: int|
                    0 <= j < es.len() && #[trigger] self.selected_by(es[j], i),
        )
    }

    /// `y` holds every dependency of every node of `y`.
    pub open spec fn closed(&self, y: Set<int>) -> bool {
        forall|i: int, k: int|
            #![trigger y.contains(i), self.deps(i)[k]]
            y.contains(i) && 0 <= i < self.size() && 0 <= k < self.deps(i).len() ==> y.contains(
                self.deps(i)[k] as int,
            )
    }

    /// The dependency closure of `seeds`: the nodes that lie in every
    /// dependency-closed set holding `seeds`.
    pub open spec fn closure(&self, seeds: Set<int>) -> Set<int> {
        Set::new(
            |i: int|
                0 <= i < self.size() && forall|y: Set<int>|
                    #[trigger] self.closed(y) && seeds.subset_of(y) ==> y.contains(i),
        )
    }

    /// The fragments of the members of `x` among the first `k` nodes, in index order.
    pub open spec fn fragments(&self, x: Set<int>, k: int) -> Seq<char>
        decreases k,
    {
        if k <= 0 {
            Seq::empty()
        } else if x.contains(k - 1) {
            self.fragments(x, k - 1) + self.fragment_of(k - 1)
        } else {
            self.fragments(x, k - 1)
        }
    }

    /// The generated text for the set `x`: its fragments framed as a raw string literal.
    pub open spec fn emitted(&self, x: Set<int>) -> Seq<char> {
        "r#\""@ + self.fragments(x, self.size()) + "\"#"@
    }
}

impl MetadataGraph {
    /// Every selector text of `es` parses and picks at least one node.
    pub open spec fn all_ok(&self, es: Seq<Seq<char>>) -> bool {
        forall|j: int| 0 <= j < es.len() ==> self.expr_ok(#[trigger] es[j])
    }

    /// `es[k]` is the first selector text that fails, and `err` reports it.
    pub open spec fn fails_at(&self, es: Seq<Seq<char>>, k: int, err: SelectorError) -> bool {
        &&& 0 <= k < es.len()
        &&& forall|j: int| 0 <= j < k ==> self.expr_ok(#[trigger] es[j])
        &&& !self.expr_ok(es[k])
        &&& reports(err, es[k])
    }

    /// The text generated for the selector texts `es`, when they all succeed.
    pub open spec fn generated(&self, es: Seq<Seq<char>>) -> Seq<char> {
        self.emitted(self.closure(self.seeds(es)))
    }
}

/// `err` reports the expression `e`, as a syntax error when `e` does not
/// parse, and as an unknown identifier otherwise.
pub open spec fn reports(err: SelectorError, e: Seq<char>) -> bool {
    match err {
        SelectorError::Syntax(m) => selector_spec(e) is None && m@ == e,
        SelectorError::UnknownIdentifier(m) => selector_spec(e) is Some && m@ == e,
    }
}

/// The closure is dependency-closed and holds every seed.
pub proof fn lemma_closure_closed(g: MetadataGraph, seeds: Set<int>)
    requires
        g.wf(),
    ensures
        g.closed(g.closure(seeds)),
        forall|i: int| 0 <= i < g.size() && seeds.contains(i) ==> g.closure(seeds).contains(i),
{
    let c = g.closure(seeds);
    assert forall|i: int, k: int|
        #![trigger c.contains(i), g.deps(i)[k]]
        c.contains(i) && 0 <= i < g.size() && 0 <= k < g.deps(i).len() implies c.contains(
            g.deps(i)[k] as int,
        ) by {
        let d = g.deps(i)[k] as int;
        assert forall|y: Set<int>| #[trigger] g.closed(y) && seeds.subset_of(y) implies y.contains(
            d,
        ) by {
            assert(y.contains(i));
        }
    }
}

fn agree(a: &Vec<String>, b: &Vec<String>, m: usize) -> (r: bool)
    requires
        m <= a@.len(),
        m <= b@.len(),
    ensures
        r == (names(a@).take(m as int) == names(b@).take(m as int)),
{
    let mut k: usize = 0;
    while k < m
        invariant
            m <= a@.len(),
            m <= b@.len(),
            k <= m,
            forall|t: int| 0 <= t < k ==> a@[t]@ == b@[t]@,
        decreases m - k,
    {
        if a[k] != b[k] {
            assert(names(a@).take(m as int)[k as int] != names(b@).take(m as int)[k as int]);
            return false;
        }
        k = k + 1;
    }
    assert(names(a@).take(m as int) =~= names(b@).take(m as int));
    true
}

fn selects_node(graph: &MetadataGraph, sel: &Selector, i: usize) -> (r: bool)
    requires
        i < graph.size(),
    ensures
        r == graph.selects((names(sel.path@), sel.quantifier), i as int),
{
    let path = &graph.nodes[i].path;
    let n = sel.path.len();
    assert(names(path@).len() == path@.len());
    assert(names(sel.path@).len() == n);
    match sel.quantifier {
        Quantifier::Exact => {
            if path.len() != n {
                return false;
            }
            let r = agree(path, &sel.path, n);
            assert(names(path@).take(n as int) =~= names(path@));
            assert(names(sel.path@).take(n as int) =~= names(sel.path@));
            r
        },
        Quantifier::Wildcard => {
            if path.len() == 0 || path.len() - 1 != n {
                return false;
            }
            let r = agree(path, &sel.path, n);
            assert(names(path@).take(n as int) =~= names(path@).drop_last());
            assert(names(sel.path@).take(n as int) =~= names(sel.path@));
            r
        },
    }
}

/// Resolves selector expressions against the graph: every node that some
/// expression picks, together with everything it depends on, directly or
/// not. The first expression that does not parse, or that picks no node,
/// aborts the whole resolution and is named in the error.
pub fn resolve(graph: &MetadataGraph, exprs: &Vec<String>) -> (r: Result<ResolutionSet, SelectorError>)
    requires
        graph.wf(),
    ensures
        r is Ok <==> graph.all_ok(names(exprs@)),
        match r {
            Ok(set) => set@ == graph.closure(graph.seeds(names(exprs@)))
                && set.members@.len() == graph.size(),
            Err(e) => exists|k: int| graph.fails_at(names(exprs@), k, e),
        },
{
    let n = graph.nodes.len();
    let mut marks: Vec<bool> = Vec::new();
    let mut t: usize = 0;
    while t < n
        invariant
            marks@.len() == t,
            t <= n,
            forall|q: int| 0 <= q < t ==> !marks@[q],
        decreases n - t,
    {
        marks.push(false);
        t = t + 1;
    }
    let mut stack: Vec<usize> = Vec::new();
    let ghost mut todo: Set<int> = set_int_range(0, n as int);
    proof {
        lemma_int_range(0, n as int);
        assert(todo =~= Set::new(|i: int| 0 <= i < n && !marks@[i]));
    }
    let ghost es = names(exprs@);
    let mut j: usize = 0;
    while j < exprs.len()
        invariant
            n == graph.size(),
            graph.wf(),
            marks@.len() == n,
            j <= exprs@.len(),
            es == names(exprs@),
            forall|jj: int| 0 <= jj < j ==> graph.expr_ok(#[trigger] es[jj]),
            forall|i: int|
                0 <= i < n ==> (marks@[i] <==> exists|jj: int|
                    0 <= jj < j && #[trigger] graph.selected_by(es[jj], i)),
            forall|i: int| 0 <= i < n && marks@[i] ==> stack@.contains(i as usize),
            forall|q: int| 0 <= q < stack@.len() ==> stack@[q] < n && marks@[stack@[q] as int],
            todo.finite(),
            todo == Set::new(|i: int| 0 <= i < n && !marks@[i]),
        decreases exprs@.len() - j,
    {
        assert(es[j as int] == exprs@[j as int]@);
        let sel = match parse_selector(exprs[j].as_str()) {
            Ok(sel) => sel,
            Err(e) => {
                assert(!graph.expr_ok(es[j as int]));
                assert(graph.fails_at(es, j as int, e));
                return Err(e);
            },
        };
        let mut found = false;
        let mut i: usize = 0;
        while i < n
            invariant
                n == graph.size(),
                marks@.len() == n,
                j < exprs@.len(),
                i <= n,
                es == names(exprs@),
                selector_spec(es[j as int]) == Some((names(sel.path@), sel.quantifier)),
                forall|q: int|
                    0 <= q < n ==> (marks@[q] <==> (exists|jj: int|
                        0 <= jj < j && #[trigger] graph.selected_by(es[jj], q)) || (q < i
                        && graph.selected_by(es[j as int], q))),
                found <==> exists|q: int| 0 <= q < i && #[trigger] graph.selected_by(es[j as int], q),
                forall|q: int| 0 <= q < n && marks@[q] ==> stack@.contains(q as usize),
                forall|q: int| 0 <= q < stack@.len() ==> stack@[q] < n && marks@[stack@[q] as int],
                todo.finite(),
                todo == Set::new(|q: int| 0 <= q < n && !marks@[q]),
            decreases n - i,
        {
            let ghost st0 = stack@;
            if selects_node(graph, &sel, i) {
                assert(graph.selected_by(es[j as int], i as int));
                found = true;
                if !marks[i] {
                    marks.set(i, true);
                    stack.push(i);
                    proof {
                        todo = todo.remove(i as int);
                        assert(todo =~= Set::new(|q: int| 0 <= q < n && !marks@[q]));
                        assert(stack@[stack@.len() - 1] == i);
                    }
                }
            }
            proof {
                assert forall|q: int| 0 <= q < n && marks@[q] implies stack@.contains(q as usize) by {
                    if st0.contains(q as usize) {
                        let w = choose|w: int| 0 <= w < st0.len() && st0[w] == q as usize;
                        assert(stack@[w] == q as usize);
                    } else {
                        assert(stack@[stack@.len() - 1] == i);
                    }
                }
            }
            i = i + 1;
        }
        if !found {
            assert(!graph.expr_ok(es[j as int]));
            let e = SelectorError::UnknownIdentifier(exprs[j].clone());
            assert(graph.fails_at(es, j as int, e));
            return Err(e);
        }
        assert(graph.expr_ok(es[j as int]));
        j = j + 1;
    }
    let ghost seeds = graph.seeds(es);
    let ghost c = graph.closure(seeds);
    proof {
        lemma_closure_closed(*graph, seeds);
        assert forall|i: int| 0 <= i < n && marks@[i] implies c.contains(i) by {
            assert(seeds.contains(i));
        }
    }
    while stack.len() > 0
        invariant
            n == graph.size(),
            graph.wf(),
            marks@.len() == n,
            c == graph.closure(seeds),
            graph.closed(c),
            forall|i: int| 0 <= i < n && marks@[i] ==> c.contains(i),
            forall|i: int| 0 <= i < n && #[trigger] seeds.contains(i) ==> marks@[i],
            seeds == graph.seeds(es),
            forall|i: int|
                0 <= i < n && marks@[i] && !stack@.contains(i as usize) ==> forall|k: int|
                    0 <= k < graph.deps(i).len() ==> marks@[#[trigger] graph.deps(i)[k] as int],
            forall|q: int| 0 <= q < stack@.len() ==> stack@[q] < n && marks@[stack@[q] as int],
            todo.finite(),
            todo == Set::new(|q: int| 0 <= q < n && !marks@[q]),
        decreases todo.len(), stack@.len(),
    {
        let ghost old_stack = stack@;
        let v = stack.pop().unwrap();
        assert(old_stack == stack@.push(v));
        let ghost t0 = todo.len();
        let ghost s0 = old_stack.len();
        let deps = &graph.nodes[v].dependencies;
        let mut k: usize = 0;
        while k < deps.len()
            invariant
                n == graph.size(),
                graph.wf(),
                marks@.len() == n,
                v < n,
                deps@ == graph.deps(v as int),
                marks@[v as int],
                c == graph.closure(seeds),
                graph.closed(c),
                forall|i: int| 0 <= i < n && marks@[i] ==> c.contains(i),
                forall|i: int| 0 <= i < n && #[trigger] seeds.contains(i) ==> marks@[i],
                forall|i: int|
                    0 <= i < n && i != v && marks@[i] && !stack@.contains(i as usize) ==> forall|kk: int|
                        0 <= kk < graph.deps(i).len() ==> marks@[#[trigger] graph.deps(i)[kk] as int],
                forall|kk: int| 0 <= kk < k ==> marks@[#[trigger] deps@[kk] as int],
                forall|q: int| 0 <= q < stack@.len() ==> stack@[q] < n && marks@[stack@[q] as int],
                k <= deps@.len(),
                todo.finite(),
                todo == Set::new(|q: int| 0 <= q < n && !marks@[q]),
                todo.len() <= t0,
                todo.len() + stack@.len() < t0 + s0,
            decreases deps@.len() - k,
        {
            let d = deps[k];
            assert(d < n);
            if !marks[d] {
                let ghost before = stack@;
                marks.set(d, true);
                stack.push(d);
                proof {
                    assert(c.contains(v as int));
                    assert(graph.deps(v as int)[k as int] == d);
                    assert(c.contains(d as int));
                    assert(stack@[stack@.len() - 1] == d);
                    assert(todo.contains(d as int));
                    todo = todo.remove(d as int);
                    assert(todo =~= Set::new(|q: int| 0 <= q < n && !marks@[q]));
                    assert forall|i: int|
                        0 <= i < n && i != v && marks@[i] && !stack@.contains(i as usize) implies forall|kk: int|
                            0 <= kk < graph.deps(i).len() ==> marks@[#[trigger] graph.deps(i)[kk] as int] by {
                        assert(i != d);
                        if before.contains(i as usize) {
                            let w = choose|w: int| 0 <= w < before.len() && before[w] == i as usize;
                            assert(stack@[w] == i as usize);
                        }
                    }
                }
            }
            k = k + 1;
        }
    }
    assert(graph.all_ok(es));
    let set = ResolutionSet { members: marks };
    proof {
        assert(graph.closed(set@));
        assert(seeds.subset_of(set@));
        assert forall|i: int| c.contains(i) implies set@.contains(i) by {
            assert(graph.closed(set@) && seeds.subset_of(set@) ==> set@.contains(i));
        }
        assert(set@ =~= c);
    }
    Ok(set)
}

/// Serializes a resolution set: the fragments of its members in node order,
/// framed as a raw string literal. Fragments are not altered.
pub fn emit(graph: &MetadataGraph, set: &ResolutionSet) -> (text: String)
    requires
        set.members@.len() == graph.size(),
    ensures
        text@ == graph.emitted(set@),
{
    let mut text = String::from_str("r#\"");
    let n = graph.nodes.len();
    let mut i: usize = 0;
    while i < n
        invariant
            n == graph.size(),
            set.members@.len() == n,
            i <= n,
            text@ == "r#\""@ + graph.fragments(set@, i as int),
        decreases n - i,
    {
        assert(set@.contains(i as int) == set.members@[i as int]);
        if set.members[i] {
            text.append(graph.nodes[i].fragment.as_str());
        }
        i = i + 1;
    }
    text.append("\"#");
    text
}

/// Resolves the selector expressions and serializes the result. On any
/// failure no text is produced: the error names the first failing expression.
pub fn resolve_and_emit(graph: &MetadataGraph, exprs: &Vec<String>) -> (r: Result<String, SelectorError>)
    requires
        graph.wf(),
    ensures
        r is Ok <==> graph.all_ok(names(exprs@)),
        match r {
            Ok(text) => text@ == graph.generated(names(exprs@)),
            Err(e) => exists|k: int| graph.fails_at(names(exprs@), k, e),
        },
{
    match resolve(graph, exprs) {
        Ok(set) => Ok(emit(graph, &set)),
        Err(e) => Err(e),
    }
}

/// Generates the text for a comma-separated list of selector expressions,
/// as written in the generator's input: the list is split, then resolved and
/// serialized as by `resolve_and_emit`.
pub fn generate(graph: &MetadataGraph, input: &str) -> (r: Result<String, SelectorError>)
    requires
        graph.wf(),
    ensures
        r is Ok <==> graph.all_ok(selector_list(input@)),
        match r {
            Ok(text) => text@ == graph.generated(selector_list(input@)),
            Err(e) => exists|k: int| graph.fails_at(selector_list(input@), k, e),
        },
{
    let exprs = split_selectors(input);
    resolve_and_emit(graph, &exprs)
}

/// Adding selectors never removes nodes: the closure for a list of selector
/// texts holds the closure for any list whose texts all occur in it. The
/// closure is also dependency-closed, and a finite set of node indices.
pub proof fn lemma_closure_monotone(g: MetadataGraph, sub: Seq<Seq<char>>, all: Seq<Seq<char>>)
    requires
        g.wf(),
        forall|e: Seq<char>| sub.contains(e) ==> all.contains(e),
    ensures
        g.closure(g.seeds(sub)).subset_of(g.closure(g.seeds(all))),
        g.closed(g.closure(g.seeds(all))),
        g.closure(g.seeds(all)).subset_of(set_int_range(0, g.size())),
        g.closure(g.seeds(all)).finite(),
{
    let big = g.closure(g.seeds(all));
    lemma_closure_closed(g, g.seeds(all));
    assert(g.seeds(sub).subset_of(g.seeds(all))) by {
        assert forall|i: int| g.seeds(sub).contains(i) implies g.seeds(all).contains(i) by {
            let j = choose|j: int| 0 <= j < sub.len() && #[trigger] g.selected_by(sub[j], i);
            assert(sub.contains(sub[j]));
            let w = choose|w: int| 0 <= w < all.len() && all[w] == sub[j];
            assert(g.selected_by(all[w], i));
        }
    }
    assert forall|i: int| g.closure(g.seeds(sub)).contains(i) implies big.contains(i) by {
        assert(g.closed(big) && g.seeds(sub).subset_of(big) ==> big.contains(i));
    }
    lemma_int_range(0, g.size());
    vstd::set_lib::lemma_len_subset(big, set_int_range(0, g.size()));
}

/// The generated text depends only on which selector texts are given, not
/// on their order or repetition: in particular any permutation of a list
/// succeeds or fails with it and yields byte-identical text.
pub proof fn lemma_generated_order_independent(g: MetadataGraph, a: Seq<Seq<char>>, b: Seq<Seq<char>>)
    requires
        forall|e: Seq<char>| a.contains(e) <==> b.contains(e),
    ensures
        g.all_ok(a) == g.all_ok(b),
        g.seeds(a) == g.seeds(b),
        g.generated(a) == g.generated(b),
{
    assert forall|i: int| g.seeds(a).contains(i) implies g.seeds(b).contains(i) by {
        let j = choose|j: int| 0 <= j < a.len() && #[trigger] g.selected_by(a[j], i);
        assert(a.contains(a[j]));
        let w = choose|w: int| 0 <= w < b.len() && b[w] == a[j];
        assert(g.selected_by(b[w], i));
    }
    assert forall|i: int| g.seeds(b).contains(i) implies g.seeds(a).contains(i) by {
        let j = choose|j: int| 0 <= j < b.len() && #[trigger] g.selected_by(b[j], i);
        assert(b.contains(b[j]));
        let w = choose|w: int| 0 <= w < a.len() && a[w] == b[j];
        assert(g.selected_by(a[w], i));
    }
    assert(g.seeds(a) =~= g.seeds(b));
    if g.all_ok(a) {
        assert forall|j: int| 0 <= j < b.len() implies g.expr_ok(#[trigger] b[j]) by {
            assert(b.contains(b[j]));
            let w = choose|w: int| 0 <= w < a.len() && a[w] == b[j];
            assert(g.expr_ok(a[w]));
        }
    }
    if g.all_ok(b) {
        assert forall|j: int| 0 <= j < a.len() implies g.expr_ok(#[trigger] a[j]) by {
            assert(a.contains(a[j]));
            let w = choose|w: int| 0 <= w < b.len() && b[w] == a[j];
            assert(g.expr_ok(b[w]));
        }
    }
}

/// The direct children of the namespace `ns`: nodes whose path is `ns` and
/// one more segment.
pub open spec fn children_of(g: MetadataGraph, ns: Seq<Seq<char>>) -> Set<int> {
    Set::new(
        |i: int|
            0 <= i < g.size() && g.path_of(i).len() == ns.len() + 1 && g.path_of(i).drop_last()
                == ns,
    )
}

/// A wildcard selector `Ns::*` picks exactly the direct children of `Ns`
/// (no deeper descendants); when those children depend on nothing, that is
/// the whole resolution.
pub proof fn lemma_wildcard_scope(g: MetadataGraph, e: Seq<char>, ns: Seq<Seq<char>>)
    requires
        g.wf(),
        selector_spec(e) == Some((ns, Quantifier::Wildcard)),
    ensures
        g.seeds(seq![e]) == children_of(g, ns),
        (forall|i: int| #[trigger] children_of(g, ns).contains(i) ==> g.deps(i).len() == 0)
            ==> g.closure(g.seeds(seq![e])) == children_of(g, ns),
{
    let es = seq![e];
    assert forall|i: int| g.seeds(es).contains(i) implies children_of(g, ns).contains(i) by {
        let j = choose|j: int| 0 <= j < es.len() && #[trigger] g.selected_by(es[j], i);
        assert(j == 0);
    }
    assert forall|i: int| children_of(g, ns).contains(i) implies g.seeds(es).contains(i) by {
        assert(g.selected_by(es[0], i));
    }
    assert(g.seeds(es) =~= children_of(g, ns));
    let ch = children_of(g, ns);
    let c = g.closure(g.seeds(es));
    lemma_closure_closed(g, g.seeds(es));
    if forall|i: int| #[trigger] ch.contains(i) ==> g.deps(i).len() == 0 {
        assert(g.closed(ch));
        assert forall|i: int| c.contains(i) implies ch.contains(i) by {
            assert(g.closed(ch) && g.seeds(es).subset_of(ch) ==> ch.contains(i));
        }
        assert(c =~= ch);
    }
}

/// Dependency cycles are harmless: when a selected node `a` and a node `b`
/// depend on each other, the closure holds both and is still a finite set.
pub proof fn lemma_cycle_resolves(g: MetadataGraph, es: Seq<Seq<char>>, a: usize, b: usize)
    requires
        g.wf(),
        g.seeds(es).contains(a as int),
        b < g.size(),
        g.deps(a as int).contains(b),
        g.deps(b as int).contains(a),
    ensures
        g.closure(g.seeds(es)).contains(a as int),
        g.closure(g.seeds(es)).contains(b as int),
        g.closure(g.seeds(es)).finite(),
{
    lemma_closure_closed(g, g.seeds(es));
    lemma_closure_monotone(g, es, es);
    let c = g.closure(g.seeds(es));
    assert(c.contains(a as int));
    let k = choose|k: int| 0 <= k < g.deps(a as int).len() && g.deps(a as int)[k] == b;
    assert(c.contains(g.deps(a as int)[k] as int));
}

} // verus!
