//! The router: the registry as a weighted directed graph, and the cheapest
//! path between two formats.

use crate::convert::{ConversionGraph, Converter};
use crate::format::{Format, FORMAT_COUNT};
use crate::trusted::{dijkstra_route, shortest_walk};
use vstd::prelude::*;

verus! {

/// The direct successors of every format, by rank: the targets of its
/// edges with their costs, in the order in which a search meets them.
pub type Adjacency = Seq<Seq<(Format, u64)>>;

/// The lists of successors as sequences.
pub open spec fn rows(lists: Seq<Vec<(Format, u64)>>) -> Adjacency {
    lists.map_values(|list: Vec<(Format, u64)>| list@)
}

/// `to` is a successor of `from`, at cost `cost`.
pub open spec fn is_hop(adjacency: Adjacency, from: Format, to: Format, cost: u64) -> bool {
    from.rank() < adjacency.len() && adjacency[from.rank()].contains((to, cost))
}

/// `path` leads from its first format to its last one along successors, at
/// a total cost of `cost`. A single format is a walk of cost 0.
pub open spec fn is_walk(adjacency: Adjacency, path: Seq<Format>, cost: int) -> bool
    decreases path.len(),
{
    if path.len() <= 1 {
        path.len() == 1 && cost == 0
    } else {
        exists|weight: u64| #[trigger]
            is_hop(adjacency, path[path.len() - 2], path.last(), weight) && is_walk(
                adjacency,
                path.drop_last(),
                cost - weight,
            )
    }
}

/// `path` is a walk from `from` to `to` at a total cost of `cost`.
pub open spec fn joins(
    adjacency: Adjacency,
    from: Format,
    to: Format,
    path: Seq<Format>,
    cost: int,
) -> bool {
    is_walk(adjacency, path, cost) && path[0] == from && path.last() == to
}

/// The successors of `node` in the lists, none where the lists do not
/// reach its rank.
pub fn neighbours(adjacency: &Vec<Vec<(Format, u64)>>, node: &Format) -> (list: Vec<(Format, u64)>)
    ensures
        list@ == if node.rank() < adjacency.len() {
            adjacency[node.rank()]@
        } else {
            Seq::<(Format, u64)>::empty()
        },
{
    let mut list: Vec<(Format, u64)> = Vec::new();
    let rank = node.ordinal();
    if rank < adjacency.len() {
        let row = &adjacency[rank];
        let mut i: usize = 0;
        while i < row.len()
            invariant
                i <= row.len(),
                list@ == row@.take(i as int),
            decreases row.len() - i,
        {
            list.push(row[i]);
            assert(list@ =~= row@.take(i + 1));
            i += 1;
        }
        assert(row@.take(row.len() as int) =~= row@);
    }
    list
}

/// Whether a search that aims at `goal` has arrived with `node`.
pub fn is_goal(node: &Format, goal: &Format) -> (arrived: bool)
    ensures
        arrived == (*node == *goal),
{
    *node == *goal
}

/// An element of two sequences put together is an element of one of them.
proof fn lemma_contains_add<T>(first: Seq<T>, second: Seq<T>, item: T)
    ensures
        (first + second).contains(item) <==> first.contains(item) || second.contains(item),
{
    if first.contains(item) {
        let i = choose|i: int| 0 <= i < first.len() && first[i] == item;
        assert((first + second)[i] == item);
    }
    if second.contains(item) {
        let i = choose|i: int| 0 <= i < second.len() && second[i] == item;
        assert((first + second)[first.len() + i] == item);
    }
    if (first + second).contains(item) {
        let i = choose|i: int| 0 <= i < (first + second).len() && (first + second)[i] == item;
        if i < first.len() {
            assert(first[i] == item);
        } else {
            assert(second[i - first.len()] == item);
        }
    }
}

impl<C: Converter> ConversionGraph<C> {
    /// The edge from `from` to `to` as a list of successors: the target
    /// with the cost, or nothing.
    pub open spec fn hop(self, from: Format, to: Format) -> Seq<(Format, u32)> {
        if self@.contains_key((from, to)) {
            seq![(to, self@[(from, to)].1)]
        } else {
            Seq::<(Format, u32)>::empty()
        }
    }

    /// The targets of the edges that leave `from`, each with the cost of its
    /// edge, in the declaration order of the formats.
    pub open spec fn successors_of(self, from: Format) -> Seq<(Format, u32)> {
        self.hop(from, Format::Bytes) + self.hop(from, Format::Bin) + self.hop(from, Format::Hex)
            + self.hop(from, Format::Oct) + self.hop(from, Format::Base32) + self.hop(
            from,
            Format::Base64,
        )
    }

    /// The successors of every format, with the costs widened so that the
    /// cost of a walk always fits.
    #[verifier::opaque]
    pub open spec fn adjacency(self) -> Adjacency {
        Seq::new(
            FORMAT_COUNT as nat,
            |rank: int|
                self.successors_of(Format::ranked(rank)).map_values(
                    |edge: (Format, u32)| (edge.0, edge.1 as u64),
                ),
        )
    }

    /// There is an edge from the format at `i` on `path` to the next one.
    pub open spec fn has_step(self, path: Seq<Format>, i: int) -> bool {
        self@.contains_key((path[i], path[i + 1]))
    }

    /// Every two neighbours on `path` have an edge between them. A single
    /// format is a path: there is nothing to convert.
    pub open spec fn is_route(self, path: Seq<Format>) -> bool {
        &&& path.len() >= 1
        &&& forall|i: int| 0 <= i < path.len() - 1 ==> #[trigger] self.has_step(path, i)
    }

    /// The costs of the edges along `path`, added up.
    pub open spec fn route_cost(self, path: Seq<Format>) -> int
        decreases path.len(),
    {
        if path.len() <= 1 {
            0
        } else {
            self.route_cost(path.drop_last()) + self@[(path[path.len() - 2], path.last())].1
        }
    }

    /// `path` leads from `from` to `to` along registered edges.
    pub open spec fn links(self, from: Format, to: Format, path: Seq<Format>) -> bool {
        self.is_route(path) && path[0] == from && path.last() == to
    }

    /// Some path leads from `from` to `to`; every format reaches itself.
    pub open spec fn reachable(self, from: Format, to: Format) -> bool {
        exists|path: Seq<Format>| self.links(from, to, path)
    }

    /// The path that the router picks from `from` to `to`, where there is
    /// one: the single format where the two are the same, and else what the
    /// search for the cheapest walk returns.
    pub open spec fn route(self, from: Format, to: Format) -> Option<Seq<Format>> {
        if from == to {
            Some(seq![from])
        } else {
            match dijkstra_route(self.adjacency(), from, to) {
                Some((path, _)) => Some(path),
                None => None,
            }
        }
    }

    /// The successors of a format are the targets of its edges.
    pub proof fn lemma_successors(self, from: Format, to: Format, cost: u32)
        ensures
            self.successors_of(from).contains((to, cost)) <==> self@.contains_key((from, to))
                && self@[(from, to)].1 == cost,
    {
        let item = (to, cost);
        let a = self.hop(from, Format::Bytes);
        let b = self.hop(from, Format::Bin);
        let c = self.hop(from, Format::Hex);
        let d = self.hop(from, Format::Oct);
        let e = self.hop(from, Format::Base32);
        let f = self.hop(from, Format::Base64);
        lemma_contains_add(a, b, item);
        lemma_contains_add(a + b, c, item);
        lemma_contains_add(a + b + c, d, item);
        lemma_contains_add(a + b + c + d, e, item);
        lemma_contains_add(a + b + c + d + e, f, item);
        assert forall|other: Format| #[trigger] self.hop(from, other).contains(item) <==> other
            == to && self@.contains_key((from, to)) && self@[(from, to)].1 == cost by {
            if self@.contains_key((from, other)) {
                assert(self.hop(from, other)[0] == (other, self@[(from, other)].1));
            }
        }
    }

    /// A hop of the adjacency is an edge of the registry, at its cost.
    pub proof fn lemma_hop(self, from: Format, to: Format, cost: u64)
        ensures
            is_hop(self.adjacency(), from, to, cost) <==> self@.contains_key((from, to))
                && self@[(from, to)].1 == cost,
    {
        reveal(ConversionGraph::adjacency);
        from.lemma_rank_round_trip();
        let narrow = self.successors_of(from);
        let wide = self.adjacency()[from.rank()];
        assert(wide == narrow.map_values(|edge: (Format, u32)| (edge.0, edge.1 as u64)));
        if wide.contains((to, cost)) {
            let i = choose|i: int| 0 <= i < wide.len() && wide[i] == (to, cost);
            assert(narrow.contains(narrow[i]));
            self.lemma_successors(from, to, narrow[i].1);
        }
        if self@.contains_key((from, to)) && self@[(from, to)].1 == cost {
            let price = self@[(from, to)].1;
            self.lemma_successors(from, to, price);
            let i = choose|i: int| 0 <= i < narrow.len() && narrow[i] == (to, price);
            assert(wide[i] == (to, cost));
        }
    }

    /// A walk of the adjacency is a path of the registry, and its cost is
    /// the cost of the edges of the path.
    pub proof fn lemma_walk_is_route(self, path: Seq<Format>, cost: int)
        requires
            is_walk(self.adjacency(), path, cost),
        ensures
            self.is_route(path),
            cost == self.route_cost(path),
        decreases path.len(),
    {
        if path.len() > 1 {
            let adjacency = self.adjacency();
            let before = path.drop_last();
            let from = path[path.len() - 2];
            let to = path.last();
            let weight = choose|weight: u64| #[trigger]
                is_hop(adjacency, from, to, weight) && is_walk(adjacency, before, cost - weight);
            self.lemma_hop(from, to, weight);
            self.lemma_walk_is_route(before, cost - weight);
            assert forall|i: int| 0 <= i < path.len() - 1 implies #[trigger] self.has_step(
                path,
                i,
            ) by {
                if i < path.len() - 2 {
                    assert(self.has_step(before, i));
                }
            }
        }
    }

    /// A path of the registry is a walk of the adjacency, at the cost of
    /// its edges.
    pub proof fn lemma_route_is_walk(self, path: Seq<Format>)
        requires
            self.is_route(path),
        ensures
            is_walk(self.adjacency(), path, self.route_cost(path)),
        decreases path.len(),
    {
        if path.len() > 1 {
            let adjacency = self.adjacency();
            let before = path.drop_last();
            let last = path.len() - 2;
            let from = path[last];
            let to = path.last();
            assert(self.has_step(path, last));
            let weight = self@[(from, to)].1 as u64;
            self.lemma_hop(from, to, weight);
            assert forall|i: int| 0 <= i < before.len() - 1 implies #[trigger] self.has_step(
                before,
                i,
            ) by {
                assert(self.has_step(path, i));
            }
            self.lemma_route_is_walk(before);
            assert(is_hop(adjacency, from, to, weight) && is_walk(
                adjacency,
                before,
                self.route_cost(path) - weight,
            ));
        }
    }

    /// Appends the edge from `from` to `to`, where there is one, to a list
    /// of successors.
    fn push_hop(&self, from: &Format, to: Format, list: &mut Vec<(Format, u32)>)
        ensures
            final(list)@ == old(list)@ + self.hop(*from, to),
    {
        match self.get_direct_cost(from, &to) {
            Some(cost) => {
                list.push((to, cost));
                assert(list@ =~= old(list)@ + self.hop(*from, to));
            },
            None => {
                assert(list@ =~= old(list)@ + self.hop(*from, to));
            },
        }
    }

    /// The targets of the edges that leave `n`, each with the cost of its
    /// edge, in the declaration order of the formats.
    pub fn successors(&self, n: &Format) -> (list: Vec<(Format, u32)>)
        ensures
            list@ == self.successors_of(*n),
    {
        let mut list: Vec<(Format, u32)> = Vec::new();
        self.push_hop(n, Format::Bytes, &mut list);
        self.push_hop(n, Format::Bin, &mut list);
        self.push_hop(n, Format::Hex, &mut list);
        self.push_hop(n, Format::Oct, &mut list);
        self.push_hop(n, Format::Base32, &mut list);
        self.push_hop(n, Format::Base64, &mut list);
        assert(list@ =~= self.successors_of(*n));
        list
    }

    /// The successors of every format, by rank, with widened costs.
    fn adjacency_lists(&self) -> (lists: Vec<Vec<(Format, u64)>>)
        ensures
            rows(lists@) == self.adjacency(),
            forall|i: int, j: int|
                0 <= i < lists.len() && 0 <= j < lists[i].len() ==> (#[trigger] lists[i][j]).1
                    <= u32::MAX,
    {
        reveal(ConversionGraph::adjacency);
        let formats = Format::all();
        let mut lists: Vec<Vec<(Format, u64)>> = Vec::new();
        let mut rank: usize = 0;
        while rank < formats.len()
            invariant
                formats@ == Format::every(),
                rank <= formats.len(),
                lists.len() == rank,
                forall|i: int| 0 <= i < rank ==> (#[trigger] lists[i])@ == self.adjacency()[i],
                forall|i: int, j: int|
                    0 <= i < lists.len() && 0 <= j < lists[i].len() ==> (#[trigger] lists[i][j]).1
                        <= u32::MAX,
            decreases formats.len() - rank,
        {
            let narrow = self.successors(&formats[rank]);
            let mut wide: Vec<(Format, u64)> = Vec::new();
            let mut j: usize = 0;
            while j < narrow.len()
                invariant
                    j <= narrow.len(),
                    wide.len() == j,
                    forall|k: int|
                        0 <= k < j ==> #[trigger] wide[k] == (narrow[k].0, narrow[k].1 as u64),
                decreases narrow.len() - j,
            {
                let (target, cost) = narrow[j];
                wide.push((target, cost as u64));
                j += 1;
            }
            proof {
                reveal(ConversionGraph::adjacency);
                assert(wide@ =~= self.adjacency()[rank as int]);
            }
            lists.push(wide);
            rank += 1;
        }
        proof {
            reveal(ConversionGraph::adjacency);
            assert(rows(lists@) =~= self.adjacency());
        }
        lists
    }

    /// A format is joined to itself by the path that holds nothing else,
    /// which costs nothing; that path is the router's pick.
    pub proof fn lemma_stay(self, format: Format)
        ensures
            self.links(format, format, seq![format]),
            self.route_cost(seq![format]) == 0,
            self.reachable(format, format),
            self.route(format, format) == Some(seq![format]),
            self.routed(format, format),
    {
        assert(self.links(format, format, seq![format]));
        assert forall|other: Seq<Format>| #[trigger]
            self.links(format, format, other) implies self.route_cost(seq![format])
            <= self.route_cost(other) by {
            self.lemma_route_cost_bounds(other);
        }
    }

    /// Some path joins two formats where some walk of the adjacency does.
    pub proof fn lemma_reachable(self, from: Format, to: Format)
        ensures
            self.reachable(from, to) <==> exists|path: Seq<Format>, cost: int|
                joins(self.adjacency(), from, to, path, cost),
    {
        if self.reachable(from, to) {
            let path = choose|path: Seq<Format>| self.links(from, to, path);
            self.lemma_route_is_walk(path);
            assert(joins(self.adjacency(), from, to, path, self.route_cost(path)));
        }
        if exists|path: Seq<Format>, cost: int| joins(self.adjacency(), from, to, path, cost) {
            let (path, cost) = choose|path: Seq<Format>, cost: int|
                joins(self.adjacency(), from, to, path, cost);
            self.lemma_walk_is_route(path, cost);
            assert(self.links(from, to, path));
        }
    }

    /// The cheapest walk of the adjacency is the cheapest path of the
    /// registry.
    pub proof fn lemma_cheapest(self, from: Format, to: Format, path: Seq<Format>, cost: int)
        requires
            joins(self.adjacency(), from, to, path, cost),
            forall|other: Seq<Format>, price: int|
                joins(self.adjacency(), from, to, other, price) ==> cost <= price,
        ensures
            self.links(from, to, path),
            cost == self.route_cost(path),
            forall|other: Seq<Format>| #[trigger]
                self.links(from, to, other) ==> self.route_cost(path) <= self.route_cost(other),
    {
        self.lemma_walk_is_route(path, cost);
        assert forall|other: Seq<Format>| #[trigger]
            self.links(from, to, other) implies self.route_cost(path) <= self.route_cost(
            other,
        ) by {
            self.lemma_route_is_walk(other);
            assert(joins(self.adjacency(), from, to, other, self.route_cost(other)));
        }
    }

    /// The router's pick is what a router owes: where some path leads from
    /// `from` to `to` it is such a path, of the least total cost and
    /// without a format that occurs twice, and there is none only where no
    /// path leads there.
    pub open spec fn routed(self, from: Format, to: Format) -> bool {
        match self.route(from, to) {
            Some(path) => {
                &&& self.links(from, to, path)
                &&& path.no_duplicates()
                &&& forall|other: Seq<Format>| #[trigger]
                    self.links(from, to, other) ==> self.route_cost(path) <= self.route_cost(
                        other,
                    )
            },
            None => !self.reachable(from, to),
        }
    }

    /// The cheapest path from `from` to `to`: the formats to pass through,
    /// both ends included. Where the two are the same there is nothing to
    /// search for. The same registry always gives the same path.
    pub fn find_shortest_path(&self, from: &Format, to: &Format) -> (r: Option<Vec<Format>>)
        ensures
            r is Some <==> self.reachable(*from, *to),
            match r {
                Some(path) => self.route(*from, *to) == Some(path@),
                None => self.route(*from, *to) is None,
            },
            self.routed(*from, *to),
    {
        if *from == *to {
            let path = vec![*from];
            proof {
                assert(path@ =~= seq![*from]);
                self.lemma_stay(*from);
            }
            return Some(path);
        }
        let lists = self.adjacency_lists();
        let found = shortest_walk(&lists, from, to);
        proof {
            self.lemma_reachable(*from, *to);
        }
        match found {
            Some((path, cost)) => {
                proof {
                    self.lemma_cheapest(*from, *to, path@, cost as int);
                }
                Some(path)
            },
            None => None,
        }
    }

    /// No path costs less than nothing.
    pub proof fn lemma_route_cost_bounds(self, path: Seq<Format>)
        ensures
            0 <= self.route_cost(path),
        decreases path.len(),
    {
        if path.len() > 1 {
            self.lemma_route_cost_bounds(path.drop_last());
        }
    }

    /// The path that the router picks depends on nothing but the edges and
    /// their costs. Two registries with the same edges at the same costs
    /// route alike, in whatever order the edges were registered and
    /// whatever converters they carry.
    pub proof fn lemma_route_depends_on_costs(self, other: Self, from: Format, to: Format)
        requires
            forall|a: Format, b: Format| #[trigger]
                self@.contains_key((a, b)) == other@.contains_key((a, b)),
            forall|a: Format, b: Format| #[trigger]
                self@.contains_key((a, b)) ==> self@[(a, b)].1 == other@[(a, b)].1,
        ensures
            self.adjacency() == other.adjacency(),
            self.route(from, to) == other.route(from, to),
    {
        reveal(ConversionGraph::adjacency);
        assert forall|a: Format, b: Format| self.hop(a, b) =~= other.hop(a, b) by {
            assert(self@.contains_key((a, b)) == other@.contains_key((a, b)));
        }
        assert forall|a: Format| self.successors_of(a) == other.successors_of(a) by {
            assert(self.hop(a, Format::Bytes) == other.hop(a, Format::Bytes));
            assert(self.hop(a, Format::Bin) == other.hop(a, Format::Bin));
            assert(self.hop(a, Format::Hex) == other.hop(a, Format::Hex));
            assert(self.hop(a, Format::Oct) == other.hop(a, Format::Oct));
            assert(self.hop(a, Format::Base32) == other.hop(a, Format::Base32));
            assert(self.hop(a, Format::Base64) == other.hop(a, Format::Base64));
        }
        assert(self.adjacency() =~= other.adjacency());
    }
}

} // verus!
