use super::Label;
use vstd::prelude::*;
use vstd::std_specs::cmp::PartialEqSpec;
use vstd::string::StringExecFns;

verus! {

/// The character of the decimal digit `d`.
pub open spec fn digit_char(d: nat) -> char {
    ((48 + d) as u8) as char
}

/// The decimal writing of `n`, without leading zeros.
pub open spec fn decimal(n: nat) -> Seq<char>
    decreases n,
{
    if n < 10 {
        seq![digit_char(n)]
    } else {
        decimal(n / 10) + seq![digit_char(n % 10)]
    }
}

/// The one-character text of the decimal digit `d`.
fn digit_text(d: usize) -> (s: &'static str)
    requires
        d < 10,
    ensures
        s@ == seq![digit_char(d as nat)],
{
    proof {
        reveal_strlit("0");
        reveal_strlit("1");
        reveal_strlit("2");
        reveal_strlit("3");
        reveal_strlit("4");
        reveal_strlit("5");
        reveal_strlit("6");
        reveal_strlit("7");
        reveal_strlit("8");
        reveal_strlit("9");
    }
    if d == 0 {
        "0"
    } else if d == 1 {
        "1"
    } else if d == 2 {
        "2"
    } else if d == 3 {
        "3"
    } else if d == 4 {
        "4"
    } else if d == 5 {
        "5"
    } else if d == 6 {
        "6"
    } else if d == 7 {
        "7"
    } else if d == 8 {
        "8"
    } else {
        "9"
    }
}

/// The decimal writing of `n`.
pub fn decimal_text(n: usize) -> (s: String)
    ensures
        s@ == decimal(n as nat),
    decreases n,
{
    if n < 10 {
        digit_text(n).to_owned()
    } else {
        let mut s = decimal_text(n / 10);
        s.append(digit_text(n % 10));
        s
    }
}

/// The decimal writing of `i`, with a `-` in front when it is negative.
pub open spec fn signed_decimal(i: int) -> Seq<char> {
    if i < 0 {
        seq!['-'] + decimal((-i) as nat)
    } else {
        decimal(i as nat)
    }
}

/// The decimal writing of `i`, with a `-` in front when it is negative.
pub fn signed_decimal_text(i: i32) -> (s: String)
    ensures
        s@ == signed_decimal(i as int),
{
    if i < 0 {
        proof {
            reveal_strlit("-");
        }
        let magnitude = (0i64 - (i as i64)) as usize;
        let mut s = "-".to_owned();
        let digits = decimal_text(magnitude);
        s.append(digits.as_str());
        s
    } else {
        decimal_text(i as usize)
    }
}

/// The character of the hexadecimal digit `d`, in lower case.
pub open spec fn hex_char(d: nat) -> char {
    if d < 10 {
        digit_char(d)
    } else {
        ((87 + d) as u8) as char
    }
}

/// The hexadecimal writing of `n`, in lower case, without leading zeros.
pub open spec fn hexadecimal(n: nat) -> Seq<char>
    decreases n,
{
    if n < 16 {
        seq![hex_char(n)]
    } else {
        hexadecimal(n / 16) + seq![hex_char(n % 16)]
    }
}

/// The one-character text of the hexadecimal digit `d`.
fn hex_digit_text(d: usize) -> (s: &'static str)
    requires
        d < 16,
    ensures
        s@ == seq![hex_char(d as nat)],
{
    if d < 10 {
        digit_text(d)
    } else {
        proof {
            reveal_strlit("a");
            reveal_strlit("b");
            reveal_strlit("c");
            reveal_strlit("d");
            reveal_strlit("e");
            reveal_strlit("f");
        }
        if d == 10 {
            "a"
        } else if d == 11 {
            "b"
        } else if d == 12 {
            "c"
        } else if d == 13 {
            "d"
        } else if d == 14 {
            "e"
        } else {
            "f"
        }
    }
}

/// The hexadecimal writing of `n`, in lower case.
pub fn hex_text(n: usize) -> (s: String)
    ensures
        s@ == hexadecimal(n as nat),
    decreases n,
{
    if n < 16 {
        hex_digit_text(n).to_owned()
    } else {
        let mut s = hex_text(n / 16);
        s.append(hex_digit_text(n % 16));
        s
    }
}

/// Anything that can name itself with a label.
pub trait Node {
    /// The characters of the label.
    spec fn label_spec(&self) -> Seq<char>;

    fn get_label(&self) -> (l: Label)
        ensures
            l@ == self.label_spec(),
    ;
}

impl Node for usize {
    open spec fn label_spec(&self) -> Seq<char> {
        decimal(*self as nat)
    }

    fn get_label(&self) -> (l: Label) {
        Label::from_string(decimal_text(*self))
    }
}

impl Node for Label {
    open spec fn label_spec(&self) -> Seq<char> {
        self@
    }

    fn get_label(&self) -> (l: Label) {
        self.clone()
    }
}

/// A node of a graph: the element it carries, the targets of its outgoing edges and the
/// sources of its incoming edges (by index in the graph), and its own index.
#[derive(Debug)]
pub struct DataNode<T> {
    pub element: T,
    pub out_edges: Vec<usize>,
    pub in_edges: Vec<usize>,
    pub index: usize,
}

impl<T> DataNode<T> {
    /// Targets of the outgoing edges, in the order they were added.
    pub fn downstream_nodes(&self) -> (r: Vec<usize>)
        ensures
            r@ == self.out_edges@,
    {
        self.out_edges.clone()
    }

    /// Sources of the incoming edges, in the order they were added.
    pub fn upstream_nodes(&self) -> (r: Vec<usize>)
        ensures
            r@ == self.in_edges@,
    {
        self.in_edges.clone()
    }

    pub fn add_out_edge(&mut self, to: usize)
        ensures
            final(self).out_edges@ == old(self).out_edges@.push(to),
            final(self).in_edges == old(self).in_edges,
            final(self).element == old(self).element,
            final(self).index == old(self).index,
    {
        self.out_edges.push(to);
    }

    pub fn add_in_edge(&mut self, from: usize)
        ensures
            final(self).in_edges@ == old(self).in_edges@.push(from),
            final(self).out_edges == old(self).out_edges,
            final(self).element == old(self).element,
            final(self).index == old(self).index,
    {
        self.in_edges.push(from);
    }

    pub fn clear_edges(&mut self)
        ensures
            final(self).in_edges@ == Seq::<usize>::empty(),
            final(self).out_edges@ == Seq::<usize>::empty(),
            final(self).element == old(self).element,
            final(self).index == old(self).index,
    {
        self.in_edges.clear();
        self.out_edges.clear();
    }
}

impl<T> vstd::std_specs::convert::FromSpecImpl<T> for DataNode<T> {
    open spec fn obeys_from_spec() -> bool {
        false
    }

    open spec fn from_spec(v: T) -> DataNode<T> {
        arbitrary()
    }
}

impl<T> From<T> for DataNode<T> {
    /// A node carrying `element`, without edges, at index 0.
    fn from(element: T) -> (n: Self)
        ensures
            n.element == element,
            n.out_edges@ == Seq::<usize>::empty(),
            n.in_edges@ == Seq::<usize>::empty(),
            n.index == 0,
    {
        DataNode { element, out_edges: Vec::new(), in_edges: Vec::new(), index: 0 }
    }
}

impl<T: Node> Node for DataNode<T> {
    open spec fn label_spec(&self) -> Seq<char> {
        self.element.label_spec()
    }

    fn get_label(&self) -> (l: Label) {
        self.element.get_label()
    }
}

impl<T: Clone> Clone for DataNode<T> {
    /// A fresh node carrying a copy of the element: no edges, index 0.
    fn clone(&self) -> (n: Self)
        ensures
            cloned(self.element, n.element),
            n.out_edges@ == Seq::<usize>::empty(),
            n.in_edges@ == Seq::<usize>::empty(),
            n.index == 0,
    {
        DataNode::from(self.element.clone())
    }
}

impl<T: PartialEq> PartialEq for DataNode<T> {
    fn eq(&self, other: &Self) -> (r: bool) {
        self.element == other.element
    }
}

impl<T: PartialEq> vstd::std_specs::cmp::PartialEqSpecImpl for DataNode<T> {
    open spec fn obeys_eq_spec() -> bool {
        T::obeys_eq_spec()
    }

    open spec fn eq_spec(&self, other: &DataNode<T>) -> bool {
        self.element.eq_spec(&other.element)
    }
}

} // verus!
