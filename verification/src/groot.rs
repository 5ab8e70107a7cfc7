//! Behavior trees in the Groot vocabulary: nodes named by their Groot type
//! id, with their parameter arguments as text, and their text rendering.
use vstd::prelude::*;
use crate::text::cat;

verus! {

/// A node of a Groot behavior tree: its Groot type id (`Sequence`,
/// `Succeed`, ...), its instance name, its parameter arguments as
/// `name = text` pairs, and its children.
#[derive(Debug, PartialEq)]
pub struct Node {
    pub id: String,
    pub name: String,
    pub param_args: Vec<(String, String)>,
    pub children: Vec<Node>,
}

/// A Groot behavior tree: its root node.
#[derive(Debug, PartialEq)]
pub struct BehaviorTree {
    pub root: Node,
}

/// One parameter argument as Groot writes it: `name="text"`.
pub open spec fn arg_text(p: (String, String)) -> Seq<char> {
    p.0@ + "=\""@ + p.1@ + "\""@
}

/// The parameter arguments, each as `name="text"`, separated by `, `.
pub open spec fn param_args_text(ps: Seq<(String, String)>) -> Seq<char>
    decreases ps.len(),
{
    if ps.len() == 0 {
        Seq::empty()
    } else if ps.len() == 1 {
        arg_text(ps[0])
    } else {
        param_args_text(ps.drop_last()) + ", "@ + arg_text(ps.last())
    }
}

/// The parameter arguments of a node as text: each as `name="text"`,
/// separated by `, `.
pub fn display_param_args(param_args: &Vec<(String, String)>) -> (r: String)
    ensures
        r@ == param_args_text(param_args@),
{
    let mut out = String::new();
    let mut i: usize = 0;
    while i < param_args.len()
        invariant
            i <= param_args@.len(),
            out@ == param_args_text(param_args@.take(i as int)),
        decreases param_args@.len() - i,
    {
        let p = &param_args[i];
        proof {
            assert(param_args@.take(i + 1).drop_last() =~= param_args@.take(i as int));
            assert(param_args@.take(i + 1).last() == param_args@[i as int]);
        }
        let sep = if i == 0 {
            String::new()
        } else {
            String::from_str(", ")
        };
        let a = cat(out.as_str(), sep.as_str());
        let b = a.concat(p.0.as_str());
        let c = b.concat("=\"");
        let d = c.concat(p.1.as_str());
        out = d.concat("\"");
        proof {
            if i == 0 {
                assert(param_args@.take(1)[0] == param_args@[0]);
                assert(out@ =~= param_args_text(param_args@.take(1)));
            } else {
                assert(out@ =~= param_args_text(param_args@.take(i + 1)));
            }
        }
        i += 1;
    }
    proof {
        assert(param_args@.take(param_args@.len() as int) =~= param_args@);
    }
    out
}

/// The parameter arguments as owned strings, in order.
pub fn to_string_map(m: Vec<(&str, &str)>) -> (r: Vec<(String, String)>)
    ensures
        r@.len() == m@.len(),
        forall|i: int| 0 <= i < m@.len() ==> (#[trigger] r@[i]).0@ == m@[i].0@ && r@[i].1@ == m@[i].1@,
{
    let mut r: Vec<(String, String)> = Vec::new();
    for i in 0..m.len()
        invariant
            r@.len() == i,
            i <= m@.len(),
            forall|j: int| 0 <= j < i ==> (#[trigger] r@[j]).0@ == m@[j].0@ && r@[j].1@ == m@[j].1@,
    {
        r.push((String::from_str(m[i].0), String::from_str(m[i].1)));
    }
    r
}

/// A node's rendering: its id, its parameter arguments in brackets, then,
/// when it has children, `:` and one `\n- ` line per child, each child
/// rendered the same way.
pub open spec fn node_text(n: Node) -> Seq<char>
    decreases n,
{
    proof {
        assert(decreases_to!(n => n.children));
        assert(decreases_to!(n.children => n.children@));
    }
    n.id@ + "("@ + param_args_text(n.param_args@) + ")"@ + if n.children@.len() == 0 {
        Seq::empty()
    } else {
        ":"@ + children_text(n.children@)
    }
}

/// Each node of `cs` rendered on a `\n- ` line.
pub open spec fn children_text(cs: Seq<Node>) -> Seq<char>
    decreases cs,
{
    if cs.len() == 0 {
        Seq::empty()
    } else {
        proof {
            assert(decreases_to!(cs => cs[cs.len() - 1]));
        }
        children_text(cs.drop_last()) + "\n- "@ + node_text(cs.last())
    }
}

impl Node {
    /// This node rendered as text (see `node_text`): the id and its
    /// parameter arguments in brackets, then the children, one per `\n- `
    /// line.
    pub fn to_text(&self) -> (r: String)
        ensures
            r@ == node_text(*self),
        decreases self,
    {
        let args = display_param_args(&self.param_args);
        let open = cat(self.id.as_str(), "(");
        let with_args = open.concat(args.as_str());
        let head = with_args.concat(")");
        if self.children.len() == 0 {
            assert(head@ =~= node_text(*self));
            return head;
        }
        let mut out = head.concat(":");
        let mut i: usize = 0;
        while i < self.children.len()
            invariant
                i <= self.children@.len(),
                out@ == head@ + ":"@ + children_text(self.children@.take(i as int)),
                head@ == self.id@ + "("@ + param_args_text(self.param_args@) + ")"@,
            decreases self.children@.len() - i,
        {
            proof {
                assert(decreases_to!(*self => self.children));
                assert(decreases_to!(self.children => self.children@));
                assert(decreases_to!(self.children@ => self.children@[i as int]));
                assert(self.children@.take(i + 1).drop_last() =~= self.children@.take(i as int));
                assert(self.children@.take(i + 1).last() == self.children@[i as int]);
            }
            let child = self.children[i].to_text();
            let line = cat("\n- ", child.as_str());
            out = out.concat(line.as_str());
            proof {
                assert(out@ =~= head@ + ":"@ + children_text(self.children@.take(i + 1)));
            }
            i += 1;
        }
        proof {
            assert(self.children@.take(self.children@.len() as int) =~= self.children@);
            assert(out@ =~= node_text(*self));
        }
        out
    }
}

impl BehaviorTree {
    /// The tree rendered as text: its root's rendering.
    pub fn to_text(&self) -> (r: String)
        ensures
            r@ == node_text(self.root),
    {
        self.root.to_text()
    }
}

} // verus!
