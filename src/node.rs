//! Read-only navigation over one state of an accessibility tree.
use vstd::prelude::*;

verus! {

/// The identifier of a node, unique within its tree.
#[derive(PartialEq, Eq, Structural, Clone, Copy, Debug)]
pub struct NodeId(pub u64);

/// The part of a node's role that the navigation logic reads.
#[derive(PartialEq, Eq, Structural, Clone, Copy, Debug)]
pub enum Role {
    Unknown,
    Presentation,
    GenericContainer,
    Window,
    Button,
    CheckBox,
    Label,
    TextInput,
    List,
    ListItem,
}

/// The properties of a node as the application supplied them.
#[derive(Clone, Debug)]
pub struct NodeData {
    pub id: NodeId,
    pub role: Role,
    pub ignored: bool,
    pub invisible: bool,
    pub children: Vec<NodeId>,
}

/// A node's parent and its position among the parent's children.
#[derive(Clone, Copy, Debug)]
pub struct ParentAndIndex(pub NodeId, pub usize);

/// A node as stored in a tree state.
#[derive(Clone, Debug)]
pub struct NodeState {
    pub parent_and_index: Option<ParentAndIndex>,
    pub data: NodeData,
}

/// One state of a tree: its identifier, its focused node and its nodes.
#[derive(Clone, Debug)]
pub struct TreeReader {
    pub id: String,
    pub focus: Option<NodeId>,
    pub nodes: Vec<NodeState>,
}

/// A node of a tree state, borrowed together with the state it belongs to.
pub struct Node<'a> {
    pub tree_reader: &'a TreeReader,
    pub state: &'a NodeState,
}

/// The decimal digit for `d`, which is below ten.
pub open spec fn digit_char(d: nat) -> char {
    if d == 0 { '0' } else if d == 1 { '1' } else if d == 2 { '2' } else if d == 3 { '3' }
    else if d == 4 { '4' } else if d == 5 { '5' } else if d == 6 { '6' } else if d == 7 { '7' }
    else if d == 8 { '8' } else { '9' }
}

/// The decimal notation of `n`, without leading zeros.
pub open spec fn decimal(n: nat) -> Seq<char>
    decreases n,
{
    if n < 10 {
        seq![digit_char(n)]
    } else {
        decimal(n / 10).push(digit_char(n % 10))
    }
}

/// The one-character string for the decimal digit `d`.
fn digit_str(d: u64) -> (r: &'static str)
    requires
        d < 10,
    ensures
        r@ == seq![digit_char(d as nat)],
{
    proof {
        reveal_strlit("0");
        reveal_strlit("1");
        reveal_strlit("2");
        reveal_strlit("3");
        reveal_strlit("4");
        reveal_strlit("5");
        reveal_strlit("6");
        reveal_strlit("7");
        reveal_strlit("8");
        reveal_strlit("9");
    }
    if d == 0 { "0" } else if d == 1 { "1" } else if d == 2 { "2" } else if d == 3 { "3" }
    else if d == 4 { "4" } else if d == 5 { "5" } else if d == 6 { "6" } else if d == 7 { "7" }
    else if d == 8 { "8" } else { "9" }
}

/// Appends `n` in decimal notation to `s`.
fn append_decimal(s: &mut String, n: u64)
    ensures
        final(s)@ == old(s)@ + decimal(n as nat),
    decreases n,
{
    if n >= 10 {
        append_decimal(s, n / 10);
    }
    s.append(digit_str(n % 10));
    proof {
        assert(old(s)@ + decimal(n as nat) =~= final(s)@) by {
            if n >= 10 {
                assert(decimal(n as nat) == decimal((n / 10) as nat).push(
                    digit_char((n % 10) as nat),
                ));
            }
        }
    }
}

impl TreeReader {
    pub open spec fn len(&self) -> int {
        self.nodes@.len() as int
    }

    pub open spec fn id_at(&self, i: int) -> NodeId {
        self.nodes@[i].data.id
    }

    /// Whether some node of the state has the identifier `id`.
    pub open spec fn has(&self, id: NodeId) -> bool {
        exists|i: int| 0 <= i < self.len() && #[trigger] self.id_at(i) == id
    }

    /// The position of the node with identifier `id`, where there is one.
    pub open spec fn index_of(&self, id: NodeId) -> int {
        choose|i: int| 0 <= i < self.len() && #[trigger] self.id_at(i) == id
    }

    /// The position of the parent of the node at position `i`.
    pub open spec fn parent_index(&self, i: int) -> Option<int> {
        match self.nodes@[i].parent_and_index {
            Some(p) => Some(self.index_of(p.0)),
            None => None,
        }
    }

    /// Following parents from position `i` reaches a root within `fuel` steps.
    pub open spec fn reaches_root(&self, i: int, fuel: nat) -> bool
        decreases fuel,
    {
        match self.parent_index(i) {
            None => true,
            Some(p) => fuel > 0 && self.reaches_root(p, (fuel - 1) as nat),
        }
    }

    pub open spec fn ignored_at(&self, i: int) -> bool {
        self.nodes@[i].data.ignored || self.nodes@[i].data.role == Role::Presentation
    }

    /// The nearest ancestor of the node at position `i` that is not ignored,
    /// looking at most `fuel` ignored ancestors past the parent.
    pub open spec fn unignored_ancestor(&self, i: int, fuel: nat) -> Option<int>
        decreases fuel,
    {
        match self.parent_index(i) {
            None => None,
            Some(p) => if !self.ignored_at(p) {
                Some(p)
            } else if fuel == 0 {
                None
            } else {
                self.unignored_ancestor(p, (fuel - 1) as nat)
            },
        }
    }

    /// Identifiers are unique, every parent and child named exists, and
    /// the parent links have no cycle.
    pub open spec fn wf(&self) -> bool {
        &&& forall|i: int, j: int|
            0 <= i < self.len() && 0 <= j < self.len() && #[trigger] self.id_at(i)
                == #[trigger] self.id_at(j) ==> i == j
        &&& forall|i: int|
            0 <= i < self.len() && (#[trigger] self.nodes@[i]).parent_and_index is Some
                ==> self.has((self.nodes@[i].parent_and_index->0).0)
        &&& forall|i: int, k: int|
            0 <= i < self.len() && 0 <= k < self.nodes@[i].data.children@.len() ==> self.has(
                #[trigger] self.nodes@[i].data.children@[k],
            )
        &&& forall|i: int| 0 <= i < self.len() ==> #[trigger] self.reaches_root(i, self.len() as nat)
    }

    /// The position of the first node with identifier `id`.
    fn find_index(&self, id: NodeId) -> (r: Option<usize>)
        ensures
            r is Some <==> self.has(id),
            r matches Some(i) ==> i < self.nodes@.len() && self.id_at(i as int) == id,
    {
        let mut i: usize = 0;
        while i < self.nodes.len()
            invariant
                0 <= i <= self.nodes@.len(),
                forall|j: int| 0 <= j < i ==> self.id_at(j) != id,
            decreases self.nodes@.len() - i,
        {
            if self.nodes[i].data.id.0 == id.0 {
                assert(self.id_at(i as int) == id);
                return Some(i);
            }
            i = i + 1;
        }
        None
    }

    fn ids_unique(&self) -> (r: bool)
        ensures
            r == forall|i: int, j: int|
                0 <= i < self.len() && 0 <= j < self.len() && #[trigger] self.id_at(i)
                    == #[trigger] self.id_at(j) ==> i == j,
    {
        let n = self.nodes.len();
        let mut i: usize = 0;
        while i < n
            invariant
                n == self.nodes@.len(),
                0 <= i <= n,
                forall|a: int, b: int|
                    0 <= a < i && 0 <= b < n && #[trigger] self.id_at(a) == #[trigger] self.id_at(b)
                        ==> a == b,
            decreases n - i,
        {
            let mut j: usize = 0;
            while j < n
                invariant
                    n == self.nodes@.len(),
                    0 <= i < n,
                    0 <= j <= n,
                    forall|a: int, b: int|
                        0 <= a < i && 0 <= b < n && #[trigger] self.id_at(a) == #[trigger] self.id_at(b)
                            ==> a == b,
                    forall|b: int| 0 <= b < j && self.id_at(i as int) == #[trigger] self.id_at(b) ==> b == i,
                decreases n - j,
            {
                if j != i && self.nodes[i].data.id.0 == self.nodes[j].data.id.0 {
                    assert(self.id_at(i as int) == self.id_at(j as int));
                    return false;
                }
                j = j + 1;
            }
            i = i + 1;
        }
        true
    }

    fn links_resolve(&self) -> (r: bool)
        ensures
            r == ((forall|i: int|
                0 <= i < self.len() && (#[trigger] self.nodes@[i]).parent_and_index is Some
                    ==> self.has((self.nodes@[i].parent_and_index->0).0)) && (forall|i: int, k: int|
                0 <= i < self.len() && 0 <= k < self.nodes@[i].data.children@.len() ==> self.has(
                    #[trigger] self.nodes@[i].data.children@[k],
                ))),
    {
        let n = self.nodes.len();
        let mut i: usize = 0;
        while i < n
            invariant
                n == self.nodes@.len(),
                0 <= i <= n,
                forall|a: int|
                    0 <= a < i && (#[trigger] self.nodes@[a]).parent_and_index is Some ==> self.has(
                        (self.nodes@[a].parent_and_index->0).0,
                    ),
                forall|a: int, k: int|
                    0 <= a < i && 0 <= k < self.nodes@[a].data.children@.len() ==> self.has(
                        #[trigger] self.nodes@[a].data.children@[k],
                    ),
            decreases n - i,
        {
            let node = &self.nodes[i];
            match &node.parent_and_index {
                Some(p) => {
                    if self.find_index(p.0).is_none() {
                        return false;
                    }
                },
                None => {},
            }
            let children = &node.data.children;
            let mut k: usize = 0;
            while k < children.len()
                invariant
                    n == self.nodes@.len(),
                    0 <= i < n,
                    *node == self.nodes@[i as int],
                    *children == node.data.children,
                    0 <= k <= children@.len(),
                    forall|a: int|
                        0 <= a <= i && (#[trigger] self.nodes@[a]).parent_and_index is Some ==> self.has(
                            (self.nodes@[a].parent_and_index->0).0,
                        ),
                    forall|a: int, m: int|
                        0 <= a < i && 0 <= m < self.nodes@[a].data.children@.len() ==> self.has(
                            #[trigger] self.nodes@[a].data.children@[m],
                        ),
                    forall|m: int| 0 <= m < k ==> self.has(#[trigger] children@[m]),
                decreases children@.len() - k,
            {
                if self.find_index(children[k]).is_none() {
                    return false;
                }
                k = k + 1;
            }
            i = i + 1;
        }
        true
    }

    /// Whether following parents from position `start` reaches a root
    /// within as many steps as there are nodes.
    fn reaches_root_from(&self, start: usize) -> (r: bool)
        requires
            start < self.nodes@.len(),
            forall|i: int, j: int|
                0 <= i < self.len() && 0 <= j < self.len() && #[trigger] self.id_at(i)
                    == #[trigger] self.id_at(j) ==> i == j,
            forall|i: int|
                0 <= i < self.len() && (#[trigger] self.nodes@[i]).parent_and_index is Some
                    ==> self.has((self.nodes@[i].parent_and_index->0).0),
        ensures
            r == self.reaches_root(start as int, self.len() as nat),
    {
        let n = self.nodes.len();
        let mut cur: usize = start;
        let mut fuel: usize = n;
        loop
            invariant
                n == self.nodes@.len(),
                cur < n,
                fuel <= n,
                forall|i: int, j: int|
                    0 <= i < self.len() && 0 <= j < self.len() && #[trigger] self.id_at(i)
                        == #[trigger] self.id_at(j) ==> i == j,
                forall|i: int|
                    0 <= i < self.len() && (#[trigger] self.nodes@[i]).parent_and_index is Some
                        ==> self.has((self.nodes@[i].parent_and_index->0).0),
                self.reaches_root(start as int, n as nat) == self.reaches_root(cur as int, fuel as nat),
            decreases fuel,
        {
            match &self.nodes[cur].parent_and_index {
                None => {
                    return true;
                },
                Some(p) => {
                    if fuel == 0 {
                        return false;
                    }
                    let ghost pid = p.0;
                    assert(self.has(pid));
                    let next = self.find_index(p.0).unwrap();
                    let ghost j = self.index_of(pid);
                    assert(self.id_at(j) == self.id_at(next as int));
                    cur = next;
                    fuel = fuel - 1;
                }
            }
        }
    }

    /// Whether this state meets what navigation relies on: identifiers are
    /// unique, every parent and child named is present, and no chain of
    /// parents loops.
    pub fn is_valid(&self) -> (r: bool)
        ensures
            r == self.wf(),
    {
        if !self.ids_unique() || !self.links_resolve() {
            return false;
        }
        let n = self.nodes.len();
        let mut i: usize = 0;
        while i < n
            invariant
                n == self.nodes@.len(),
                0 <= i <= n,
                forall|a: int, b: int|
                    0 <= a < self.len() && 0 <= b < self.len() && #[trigger] self.id_at(a)
                        == #[trigger] self.id_at(b) ==> a == b,
                forall|a: int|
                    0 <= a < self.len() && (#[trigger] self.nodes@[a]).parent_and_index is Some
                        ==> self.has((self.nodes@[a].parent_and_index->0).0),
                forall|a: int, k: int|
                    0 <= a < self.len() && 0 <= k < self.nodes@[a].data.children@.len() ==> self.has(
                        #[trigger] self.nodes@[a].data.children@[k],
                    ),
                forall|a: int| 0 <= a < i ==> #[trigger] self.reaches_root(a, self.len() as nat),
            decreases n - i,
        {
            if !self.reaches_root_from(i) {
                return false;
            }
            i = i + 1;
        }
        true
    }

    /// Looks up the node with identifier `id`.
    pub fn node_by_id<'a>(&'a self, id: NodeId) -> (r: Option<Node<'a>>)
        requires
            self.wf(),
        ensures
            r is Some <==> self.has(id),
            r is Some ==> r->0.tree_reader == self && *r->0.state == self.nodes@[self.index_of(id)],
    {
        let mut i: usize = 0;
        while i < self.nodes.len()
            invariant
                self.wf(),
                0 <= i <= self.nodes@.len(),
                forall|j: int| 0 <= j < i ==> self.id_at(j) != id,
            decreases self.nodes@.len() - i,
        {
            if self.nodes[i].data.id.0 == id.0 {
                assert(self.id_at(i as int) == id);
                assert(self.has(id));
                let ghost j = self.index_of(id);
                assert(self.id_at(j) == self.id_at(i as int));
                return Some(Node { tree_reader: self, state: &self.nodes[i] });
            }
            i = i + 1;
        }
        None
    }
}

impl<'a> Node<'a> {
    /// The node belongs to a well-formed tree state.
    pub open spec fn wf(&self) -> bool {
        &&& self.tree_reader.wf()
        &&& self.tree_reader.has(self.state.data.id)
        &&& *self.state == self.tree_reader.nodes@[self.index()]
    }

    /// The position of the node in its tree state.
    pub open spec fn index(&self) -> int {
        self.tree_reader.index_of(self.state.data.id)
    }

    pub fn data(&self) -> (r: &NodeData)
        ensures
            *r == self.state.data,
    {
        &self.state.data
    }

    pub fn id(&self) -> (r: NodeId)
        ensures
            r == self.state.data.id,
    {
        self.state.data.id
    }

    pub fn role(&self) -> (r: Role)
        ensures
            r == self.state.data.role,
    {
        self.state.data.role
    }

    pub fn is_invisible(&self) -> (r: bool)
        ensures
            r == self.state.data.invisible,
    {
        self.state.data.invisible
    }

    pub fn is_focused(&self) -> (r: bool)
        ensures
            r == (self.tree_reader.focus == Some(self.state.data.id)),
    {
        match self.tree_reader.focus {
            Some(f) => f.0 == self.state.data.id.0,
            None => false,
        }
    }

    pub fn is_ignored(&self) -> (r: bool)
        ensures
            r == (self.state.data.ignored || self.state.data.role == Role::Presentation),
    {
        self.state.data.ignored || self.state.data.role == Role::Presentation
    }

    pub fn is_invisible_or_ignored(&self) -> (r: bool)
        ensures
            r == ((self.state.data.invisible || self.state.data.ignored || self.state.data.role
                == Role::Presentation) && self.tree_reader.focus != Some(self.state.data.id)),
    {
        (self.is_invisible() || self.is_ignored()) && !self.is_focused()
    }
    /// The parent of this node, if it has one.
    pub fn parent(&self) -> (r: Option<Node<'a>>)
        requires
            self.wf(),
        ensures
            r is Some <==> self.tree_reader.parent_index(self.index()) is Some,
            r matches Some(n) ==> {
                &&& n.wf()
                &&& n.tree_reader == self.tree_reader
                &&& self.tree_reader.parent_index(self.index()) == Some(n.index())
            },
    {
        let ghost t = self.tree_reader;
        assert(t.nodes@[self.index()] == *self.state);
        match &self.state.parent_and_index {
            Some(p) => {
                let pid = p.0;
                assert(t.has(pid));
                let found = self.tree_reader.node_by_id(pid);
                let n = found.unwrap();
                assert(t.id_at(t.index_of(pid)) == pid);
                Some(n)
            },
            None => None,
        }
    }

    /// The nearest ancestor of this node that is not ignored.
    pub fn unignored_parent(&self) -> (r: Option<Node<'a>>)
        requires
            self.wf(),
        ensures
            match self.tree_reader.unignored_ancestor(self.index(), self.tree_reader.len() as nat) {
                Some(k) => r matches Some(n) && n.wf() && n.tree_reader == self.tree_reader
                    && n.index() == k,
                None => r is None,
            },
    {
        let ghost t = self.tree_reader;
        let mut cur = Node { tree_reader: self.tree_reader, state: self.state };
        let ghost mut fuel: nat = t.len() as nat;
        assert(t.reaches_root(self.index(), fuel));
        loop
            invariant
                t == self.tree_reader,
                cur.wf(),
                cur.tree_reader == t,
                t.reaches_root(cur.index(), fuel),
                t.unignored_ancestor(self.index(), t.len() as nat) == t.unignored_ancestor(
                    cur.index(),
                    fuel,
                ),
            decreases fuel,
        {
            match cur.parent() {
                None => {
                    assert(t.unignored_ancestor(cur.index(), fuel) is None);
                    return None;
                },
                Some(p) => {
                    assert(*p.state == t.nodes@[p.index()]);
                    if !p.is_ignored() {
                        assert(t.unignored_ancestor(cur.index(), fuel) == Some(p.index()));
                        return Some(p);
                    }
                    cur = p;
                    proof {
                        fuel = (fuel - 1) as nat;
                    }
                },
            }
        }
    }

    /// The children of this node, in order.
    pub fn children(&self) -> (r: Vec<Node<'a>>)
        requires
            self.wf(),
        ensures
            r@.len() == self.state.data.children@.len(),
            forall|k: int|
                0 <= k < r@.len() ==> {
                    &&& (#[trigger] r@[k]).wf()
                    &&& r@[k].tree_reader == self.tree_reader
                    &&& r@[k].state.data.id == self.state.data.children@[k]
                },
    {
        let ghost t = self.tree_reader;
        assert(t.nodes@[self.index()] == *self.state);
        let ids = &self.state.data.children;
        let mut out: Vec<Node<'a>> = Vec::new();
        let mut k: usize = 0;
        while k < ids.len()
            invariant
                self.wf(),
                t == self.tree_reader,
                *ids == self.state.data.children,
                t.nodes@[self.index()] == *self.state,
                0 <= k <= ids@.len(),
                out@.len() == k,
                forall|m: int|
                    0 <= m < k ==> {
                        &&& (#[trigger] out@[m]).wf()
                        &&& out@[m].tree_reader == t
                        &&& out@[m].state.data.id == ids@[m]
                    },
            decreases ids@.len() - k,
        {
            let cid = ids[k];
            assert(t.has(ids@[k as int]));
            let n = self.tree_reader.node_by_id(cid).unwrap();
            assert(t.id_at(t.index_of(cid)) == cid);
            out.push(n);
            k = k + 1;
        }
        out
    }

    /// The identifier of this node across trees: the tree's identifier, a
    /// colon, and the node's identifier in decimal.
    pub fn global_id(&self) -> (r: String)
        ensures
            r@ == self.tree_reader.id@ + seq![':'] + decimal(self.state.data.id.0 as nat),
    {
        let mut r = self.tree_reader.id.clone();
        proof {
            reveal_strlit(":");
        }
        r.append(":");
        append_decimal(&mut r, self.state.data.id.0);
        r
    }
}

} // verus!
