//! Weighted graphs over named nodes, kept as adjacency lists: directed, and
//! undirected as directed both ways.

use vstd::prelude::*;
use vstd::string::StringExecFns;

verus! {

/// The adjacency list of a node: the names of its neighbours, each with the
/// weight of the edge, in the order in which the edges were added.
pub type Neighbours = Seq<(Seq<char>, i32)>;

/// A table of nodes, each with its adjacency list, in the order in which
/// the nodes were added.
pub type Rows = Seq<(Seq<char>, Neighbours)>;

/// What a list of edges says.
pub open spec fn neighbours_view(list: Seq<(String, i32)>) -> Neighbours {
    list.map_values(|edge: (String, i32)| (edge.0@, edge.1))
}

/// The position of the row of `node`, or the number of rows if it has none.
pub open spec fn row_of(rows: Rows, node: Seq<char>) -> int
    decreases rows.len(),
{
    if rows.len() == 0 {
        0
    } else if rows[0].0 == node {
        0
    } else {
        1 + row_of(rows.drop_first(), node)
    }
}

/// Whether the table has a row for `node`.
pub open spec fn has_node(rows: Rows, node: Seq<char>) -> bool {
    row_of(rows, node) < rows.len()
}

/// The table with a row for `node`: the table itself if it has one, and
/// else the table with a new row, without neighbours, at its end.
pub open spec fn with_node(rows: Rows, node: Seq<char>) -> Rows {
    if has_node(rows, node) {
        rows
    } else {
        rows.push((node, Seq::empty()))
    }
}

/// The table with one more neighbour, `to` at `weight`, at the end of the
/// adjacency list of `from`, which has a row.
pub open spec fn with_neighbour(rows: Rows, from: Seq<char>, to: Seq<char>, weight: i32) -> Rows {
    let at = row_of(rows, from);
    if at < rows.len() {
        rows.update(at, (from, rows[at].1.push((to, weight))))
    } else {
        rows
    }
}

/// The table after the directed edge from `from` to `to` has been added:
/// both nodes have rows, and `from` has the new neighbour.
pub open spec fn with_directed_edge(rows: Rows, from: Seq<char>, to: Seq<char>, weight: i32) -> Rows {
    with_neighbour(with_node(with_node(rows, from), to), from, to, weight)
}

/// The table after the undirected edge between `from` and `to` has been
/// added: a directed edge each way.
pub open spec fn with_undirected_edge(
    rows: Rows,
    from: Seq<char>,
    to: Seq<char>,
    weight: i32,
) -> Rows {
    with_neighbour(with_directed_edge(rows, from, to, weight), to, from, weight)
}

/// The edges that lead from `from` to the neighbours in `list`.
pub open spec fn edges_from(from: Seq<char>, list: Neighbours) -> Seq<(Seq<char>, Seq<char>, i32)> {
    list.map_values(|edge: (Seq<char>, i32)| (from, edge.0, edge.1))
}

/// The edges of the table, row by row: source, target and weight.
pub open spec fn edges_of(rows: Rows) -> Seq<(Seq<char>, Seq<char>, i32)>
    decreases rows.len(),
{
    if rows.len() == 0 {
        Seq::empty()
    } else {
        edges_of(rows.drop_last()) + edges_from(rows.last().0, rows.last().1)
    }
}

/// What a list of names says.
pub open spec fn names_view(names: Seq<String>) -> Seq<Seq<char>> {
    names.map_values(|name: String| name@)
}

/// The names of the nodes of the table, in order.
pub open spec fn names_of(rows: Rows) -> Seq<Seq<char>> {
    rows.map_values(|row: (Seq<char>, Neighbours)| row.0)
}

/// The position found by `row_of` is that of the first row of the node,
/// and lies within the table or just behind it.
pub proof fn lemma_row_of(rows: Rows, node: Seq<char>)
    ensures
        0 <= row_of(rows, node) <= rows.len(),
        row_of(rows, node) < rows.len() ==> rows[row_of(rows, node)].0 == node,
        forall|i: int| 0 <= i < row_of(rows, node) ==> (#[trigger] rows[i]).0 != node,
    decreases rows.len(),
{
    if rows.len() > 0 && rows[0].0 != node {
        let rest = rows.drop_first();
        lemma_row_of(rest, node);
        assert forall|i: int| 0 <= i < row_of(rows, node) implies (#[trigger] rows[i]).0
            != node by {
            if i > 0 {
                assert(rest[i - 1] == rows[i]);
            }
        }
    }
}

/// A position before which no row is of the node, and at which the table
/// ends or has a row of the node, is the position `row_of` finds.
pub proof fn lemma_row_found(rows: Rows, node: Seq<char>, at: int)
    requires
        0 <= at <= rows.len(),
        forall|i: int| 0 <= i < at ==> (#[trigger] rows[i]).0 != node,
        at < rows.len() ==> rows[at].0 == node,
    ensures
        row_of(rows, node) == at,
{
    lemma_row_of(rows, node);
    let found = row_of(rows, node);
    if found < at {
        assert(rows[found].0 == node);
    }
}

/// The adjacency lists of a graph.
pub struct AdjacencyTable {
    rows: Vec<(String, Vec<(String, i32)>)>,
}

impl View for AdjacencyTable {
    type V = Rows;

    closed spec fn view(&self) -> Rows {
        self.rows@.map_values(|row: (String, Vec<(String, i32)>)| (row.0@, neighbours_view(row.1@)))
    }
}

impl AdjacencyTable {
    /// A table without rows.
    pub fn new() -> (table: Self)
        ensures
            table@ == Rows::empty(),
    {
        let table = AdjacencyTable { rows: Vec::new() };
        assert(table@ =~= Rows::empty());
        table
    }

    /// The position of the row of `node`, or the number of rows.
    fn find(&self, node: &String) -> (at: usize)
        ensures
            at == row_of(self@, node@),
            at <= self.rows.len(),
            self@.len() == self.rows.len(),
    {
        let mut at: usize = 0;
        while at < self.rows.len()
            invariant
                at <= self.rows.len(),
                self@.len() == self.rows.len(),
                forall|i: int| 0 <= i < at ==> (#[trigger] self@[i]).0 != node@,
            decreases self.rows.len() - at,
        {
            if self.rows[at].0 == *node {
                proof {
                    assert(self@[at as int].0 == node@);
                    lemma_row_found(self@, node@, at as int);
                }
                return at;
            }
            at += 1;
        }
        proof {
            lemma_row_found(self@, node@, at as int);
        }
        at
    }
}

impl AdjacencyTable {
    /// Gives `node` a row, without neighbours, unless it has one.
    pub fn add_node(&mut self, node: &str)
        ensures
            final(self)@ == with_node(old(self)@, node@),
    {
        let name = String::from_str(node);
        let at = self.find(&name);
        if at == self.rows.len() {
            self.rows.push((name, Vec::new()));
            proof {
                assert(neighbours_view(Seq::<(String, i32)>::empty()) =~= Seq::empty());
                assert(self@ =~= old(self)@.push((node@, Seq::empty())));
            }
        }
    }

    /// Puts `to`, at `weight`, at the end of the adjacency list of `from`,
    /// if `from` has a row.
    pub fn add_neighbour(&mut self, from: &str, to: &str, weight: i32)
        ensures
            final(self)@ == with_neighbour(old(self)@, from@, to@, weight),
    {
        let name = String::from_str(from);
        let at = self.find(&name);
        if at < self.rows.len() {
            let ghost before = self.rows@[at as int];
            let target = String::from_str(to);
            self.rows[at].1.push((target, weight));
            proof {
                lemma_row_of(old(self)@, from@);
                assert(neighbours_view(before.1@.push((target, weight))) =~= neighbours_view(
                    before.1@,
                ).push((to@, weight)));
                assert(self@ =~= with_neighbour(old(self)@, from@, to@, weight));
            }
        }
    }

    /// The adjacency list of `node`, if it has a row.
    pub fn neighbours(&self, node: &str) -> (found: Option<&Vec<(String, i32)>>)
        ensures
            match found {
                Some(list) => has_node(self@, node@) && neighbours_view(list@) == self@[row_of(
                    self@,
                    node@,
                )].1,
                None => !has_node(self@, node@),
            },
    {
        let name = String::from_str(node);
        let at = self.find(&name);
        if at < self.rows.len() {
            Some(&self.rows[at].1)
        } else {
            None
        }
    }

    /// Whether `node` has a row.
    pub fn contains(&self, node: &str) -> (found: bool)
        ensures
            found == has_node(self@, node@),
    {
        let name = String::from_str(node);
        self.find(&name) < self.rows.len()
    }

    /// The names of the nodes, in the order of their rows.
    pub fn nodes(&self) -> (names: Vec<String>)
        ensures
            names_view(names@) == names_of(self@),
    {
        let mut names: Vec<String> = Vec::new();
        proof {
            assert(names_view(names@) =~= names_of(self@).take(0));
        }
        for i in 0..self.rows.len()
            invariant
                self@.len() == self.rows.len(),
                names@.len() == i,
                names_view(names@) == names_of(self@).take(i as int),
        {
            let ghost before = names@;
            let name = self.rows[i].0.clone();
            names.push(name);
            proof {
                let said = names_view(names@);
                let wanted = names_of(self@).take(i + 1);
                assert forall|j: int| 0 <= j < said.len() implies said[j] == wanted[j] by {
                    if j < i {
                        assert(said[j] == names_view(before)[j]);
                        assert(wanted[j] == names_of(self@).take(i as int)[j]);
                    }
                }
                assert(said =~= wanted);
            }
        }
        proof {
            assert(names_of(self@).take(self.rows.len() as int) =~= names_of(self@));
        }
        names
    }

    /// The edges, row by row: source, target and weight.
    pub fn edges(&self) -> (edges: Vec<(String, String, i32)>)
        ensures
            edges_view(edges@) == edges_of(self@),
    {
        let mut edges: Vec<(String, String, i32)> = Vec::new();
        proof {
            assert(self@.take(0) =~= Rows::empty());
            assert(edges_view(edges@) =~= edges_of(self@.take(0)));
        }
        for i in 0..self.rows.len()
            invariant
                self@.len() == self.rows.len(),
                edges_view(edges@) == edges_of(self@.take(i as int)),
        {
            let ghost done = edges_view(edges@);
            let ghost row = self@[i as int];
            let list = &self.rows[i].1;
            proof {
                assert(edges_view(edges@) =~= done + edges_from(
                    row.0,
                    neighbours_view(list@).take(0),
                ));
            }
            for j in 0..list.len()
                invariant
                    i < self.rows.len(),
                    self@.len() == self.rows.len(),
                    row == self@[i as int],
                    list@ == self.rows@[i as int].1@,
                    edges_view(edges@) == done + edges_from(
                        row.0,
                        neighbours_view(list@).take(j as int),
                    ),
            {
                let ghost before = edges@;
                let from = self.rows[i].0.clone();
                let to = list[j].0.clone();
                let weight = list[j].1;
                edges.push((from, to, weight));
                proof {
                    let said = edges_view(edges@);
                    let earlier = done + edges_from(row.0, neighbours_view(list@).take(j as int));
                    let wanted = done + edges_from(row.0, neighbours_view(list@).take(j + 1));
                    assert(said.len() == before.len() + 1);
                    assert(edges_view(before).len() == before.len());
                    assert(said.len() == wanted.len());
                    assert forall|k: int| 0 <= k < said.len() implies said[k] == wanted[k] by {
                        if k < before.len() {
                            assert(said[k] == edges_view(before)[k]);
                            assert(wanted[k] == earlier[k]);
                        } else {
                            assert(said[k] == (from@, to@, weight));
                            assert(neighbours_view(list@)[j as int] == (to@, weight));
                            assert(row.0 == from@);
                        }
                    }
                    assert(said =~= wanted);
                }
            }
            proof {
                let upto = self@.take(i + 1);
                assert(upto.drop_last() =~= self@.take(i as int));
                assert(upto.last() == row);
                assert(neighbours_view(list@).take(list@.len() as int) =~= row.1);
            }
        }
        proof {
            assert(self@.take(self.rows.len() as int) =~= self@);
        }
        edges
    }
}

/// What a list of edges says.
pub open spec fn edges_view(edges: Seq<(String, String, i32)>) -> Seq<(Seq<char>, Seq<char>, i32)> {
    edges.map_values(|edge: (String, String, i32)| (edge.0@, edge.1@, edge.2))
}

/// A graph kept as adjacency lists.
pub trait Graph {
    /// The adjacency lists of the graph.
    spec fn rows(&self) -> Rows;

    /// The adjacency lists after an edge from `from` to `to` has been
    /// added.
    spec fn after_edge(rows: Rows, from: Seq<char>, to: Seq<char>, weight: i32) -> Rows;

    /// The adjacency lists, to change.
    fn adjacency_table_mut(&mut self) -> (table: &mut AdjacencyTable)
        ensures
            table@ == old(self).rows(),
            final(self).rows() == final(table)@,
    ;

    /// The adjacency lists, to read.
    fn adjacency_table(&self) -> (table: &AdjacencyTable)
        ensures
            table@ == self.rows(),
    ;

    /// Adds the edge `(from, to, weight)`, and the two nodes if they are
    /// new.
    fn add_edge(&mut self, pair: (&str, &str, i32))
        ensures
            final(self).rows() == Self::after_edge(old(self).rows(), pair.0@, pair.1@, pair.2),
    ;

    /// Adds `node`, without neighbours, unless the graph has it.
    fn add_node(&mut self, node: &str)
        ensures
            final(self).rows() == with_node(old(self).rows(), node@),
    {
        self.adjacency_table_mut().add_node(node);
    }

    /// The neighbours of `node`, each with the weight of the edge, if the
    /// graph has the node.
    fn neighbours(&self, node: &str) -> (found: Option<&Vec<(String, i32)>>)
        ensures
            match found {
                Some(list) => has_node(self.rows(), node@) && neighbours_view(list@)
                    == self.rows()[row_of(self.rows(), node@)].1,
                None => !has_node(self.rows(), node@),
            },
    {
        self.adjacency_table().neighbours(node)
    }

    /// All edges: source, target and weight.
    fn edges(&self) -> (edges: Vec<(String, String, i32)>)
        ensures
            edges_view(edges@) == edges_of(self.rows()),
    {
        self.adjacency_table().edges()
    }

    /// The names of all nodes.
    fn nodes(&self) -> (names: Vec<String>)
        ensures
            names_view(names@) == names_of(self.rows()),
    {
        self.adjacency_table().nodes()
    }

    /// Whether the graph has `node`.
    fn contains(&self, node: &str) -> (found: bool)
        ensures
            found == has_node(self.rows(), node@),
    {
        self.adjacency_table().contains(node)
    }
}

/// A graph whose edges run both ways.
pub struct UndirectedGraph {
    adjacency_table: AdjacencyTable,
}

/// A graph whose edges run one way.
pub struct DirectedGraph {
    adjacency_table: AdjacencyTable,
}

impl UndirectedGraph {
    /// A graph without nodes.
    pub fn new() -> (graph: Self)
        ensures
            graph.rows() == Rows::empty(),
    {
        Self { adjacency_table: AdjacencyTable::new() }
    }
}

impl DirectedGraph {
    /// A graph without nodes.
    pub fn new() -> (graph: Self)
        ensures
            graph.rows() == Rows::empty(),
    {
        Self { adjacency_table: AdjacencyTable::new() }
    }
}

impl Graph for UndirectedGraph {
    closed spec fn rows(&self) -> Rows {
        self.adjacency_table@
    }

    open spec fn after_edge(rows: Rows, from: Seq<char>, to: Seq<char>, weight: i32) -> Rows {
        with_undirected_edge(rows, from, to, weight)
    }

    fn adjacency_table_mut(&mut self) -> (table: &mut AdjacencyTable) {
        &mut self.adjacency_table
    }

    fn adjacency_table(&self) -> (table: &AdjacencyTable) {
        &self.adjacency_table
    }

    fn add_edge(&mut self, pair: (&str, &str, i32)) {
        self.add_node(pair.0);
        self.add_node(pair.1);
        let table = self.adjacency_table_mut();
        table.add_neighbour(pair.0, pair.1, pair.2);
        table.add_neighbour(pair.1, pair.0, pair.2);
    }
}

impl Graph for DirectedGraph {
    closed spec fn rows(&self) -> Rows {
        self.adjacency_table@
    }

    open spec fn after_edge(rows: Rows, from: Seq<char>, to: Seq<char>, weight: i32) -> Rows {
        with_directed_edge(rows, from, to, weight)
    }

    fn adjacency_table_mut(&mut self) -> (table: &mut AdjacencyTable) {
        &mut self.adjacency_table
    }

    fn adjacency_table(&self) -> (table: &AdjacencyTable) {
        &self.adjacency_table
    }

    fn add_edge(&mut self, pair: (&str, &str, i32)) {
        self.add_node(pair.0);
        self.add_node(pair.1);
        self.adjacency_table_mut().add_neighbour(pair.0, pair.1, pair.2);
    }
}

} // verus!
