use vstd::prelude::*;
use std::sync::Arc;

verus! {

enum Child<T> {
    Node(Box<Node<T>>),
    Data(T),
}

struct Node<T> {
    children: [Option<Arc<Child<T>>>; 8],
}

impl<T> Node<T> {
    fn new() -> (r: Node<T>)
        ensures
            forall|i: int| 0 <= i < 8 ==> #[trigger] r.children@[i] is None,
    {
        Node { children: [None, None, None, None, None, None, None, None] }
    }
}

/// A cube of side `2 * size` centered on the origin, split into octants.
/// It holds no data yet: every lookup finds nothing.
pub struct Octree<T> {
    root: Box<Node<T>>,
    size: usize,
}

impl<T> Octree<T> {
    /// The half-width of the cube.
    pub closed spec fn spec_size(&self) -> int {
        self.size as int
    }

    pub closed spec fn wf(&self) -> bool {
        self.size <= isize::MAX
    }

    /// An empty tree over the cube `[-size, size)` on each axis.
    pub fn new(size: usize) -> (r: Octree<T>)
        requires
            size <= isize::MAX,
        ensures
            r.wf(),
            r.spec_size() == size,
    {
        Octree { root: Box::new(Node::new()), size }
    }

    /// Whether one coordinate lies in `[-size, size)`.
    fn is_valid_coordinate(&self, x: isize) -> (r: bool)
        requires
            self.wf(),
        ensures
            r == (-self.spec_size() <= x < self.spec_size()),
    {
        let size = self.size as isize;
        x < size && x >= -size
    }

    /// The value stored at a point; none is ever stored, so the answer is
    /// always `None`, inside the cube or not.
    pub fn get(&self, x: isize, y: isize, z: isize) -> (r: Option<&T>)
        requires
            self.wf(),
        ensures
            r is None,
    {
        if !self.is_valid_coordinate(x) || !self.is_valid_coordinate(y) || !self.is_valid_coordinate(z) {
            return None;
        }
        None
    }
}

} // verus!
