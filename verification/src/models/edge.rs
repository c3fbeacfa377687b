use super::Label;
use vstd::prelude::*;

verus! {

/// A copy of an optional label.
pub fn clone_label_opt(o: &Option<Label>) -> (r: Option<Label>)
    ensures
        r == *o,
{
    match o {
        None => None,
        Some(l) => Some(l.clone()),
    }
}

/// A weighted edge. It may name its endpoints by label, and it may point to them by
/// their index in the graph that holds them.
#[derive(Debug, Clone)]
pub struct Edge<T> {
    pub from: Option<Label>,
    pub to: Option<Label>,
    pub weight: T,
    pub ref_from: Option<usize>,
    pub ref_to: Option<usize>,
}

impl<T> Edge<T> {
    /// An edge carrying `data`, with no endpoint.
    pub fn orphan(data: T) -> (e: Self)
        ensures
            e.from.is_none(),
            e.to.is_none(),
            e.weight == data,
            e.ref_from.is_none(),
            e.ref_to.is_none(),
    {
        Edge { from: None, to: None, weight: data, ref_from: None, ref_to: None }
    }

    /// An edge between two labels.
    pub fn new_weighted(from: Label, to: Label, weight: T) -> (e: Self)
        ensures
            e.from == Some(from),
            e.to == Some(to),
            e.weight == weight,
            e.ref_from.is_none(),
            e.ref_to.is_none(),
    {
        Edge { from: Some(from), to: Some(to), weight, ref_from: None, ref_to: None }
    }

    /// An edge between the nodes at indices `from` and `to`.
    pub fn data_edge(from: usize, to: usize, weight: T) -> (e: Self)
        ensures
            e.from.is_none(),
            e.to.is_none(),
            e.weight == weight,
            e.ref_from == Some(from),
            e.ref_to == Some(to),
    {
        Edge { from: None, to: None, weight, ref_from: Some(from), ref_to: Some(to) }
    }

    /// The same edge going the other way.
    pub fn reversed(&self) -> (e: Edge<T>) where T: Clone
        ensures
            e.from == self.to,
            e.to == self.from,
            cloned(self.weight, e.weight),
            e.ref_from == self.ref_to,
            e.ref_to == self.ref_from,
    {
        Edge {
            from: clone_label_opt(&self.to),
            to: clone_label_opt(&self.from),
            weight: self.weight.clone(),
            ref_from: self.ref_to,
            ref_to: self.ref_from,
        }
    }

    /// Index of the source node, if the edge points to one.
    pub fn node_from(&self) -> (r: Option<usize>)
        ensures
            r == self.ref_from,
    {
        self.ref_from
    }

    /// Index of the target node, if the edge points to one.
    pub fn node_to(&self) -> (r: Option<usize>)
        ensures
            r == self.ref_to,
    {
        self.ref_to
    }

    pub fn data(&self) -> (r: &T)
        ensures
            *r == self.weight,
    {
        &self.weight
    }

    /// Index of the source node, which the edge must point to.
    pub fn get_node_from(&self) -> (r: usize)
        requires
            self.ref_from.is_some(),
        ensures
            self.ref_from == Some(r),
    {
        self.ref_from.unwrap()
    }

    /// Index of the target node, which the edge must point to.
    pub fn get_node_to(&self) -> (r: usize)
        requires
            self.ref_to.is_some(),
        ensures
            self.ref_to == Some(r),
    {
        self.ref_to.unwrap()
    }

    pub fn set_node_from(&mut self, node: usize)
        ensures
            final(self).ref_from == Some(node),
            final(self).ref_to == old(self).ref_to,
            final(self).from == old(self).from,
            final(self).to == old(self).to,
            final(self).weight == old(self).weight,
    {
        self.ref_from = Some(node);
    }

    pub fn set_node_to(&mut self, node: usize)
        ensures
            final(self).ref_to == Some(node),
            final(self).ref_from == old(self).ref_from,
            final(self).from == old(self).from,
            final(self).to == old(self).to,
            final(self).weight == old(self).weight,
    {
        self.ref_to = Some(node);
    }

    pub fn has_source(&self) -> (r: bool)
        ensures
            r == self.ref_from.is_some(),
    {
        self.ref_from.is_some()
    }

    pub fn has_target(&self) -> (r: bool)
        ensures
            r == self.ref_to.is_some(),
    {
        self.ref_to.is_some()
    }

    /// Whether the edge points to both of its nodes.
    pub fn is_connected(&self) -> (r: bool)
        ensures
            r == (self.ref_from.is_some() && self.ref_to.is_some()),
    {
        self.has_source() && self.has_target()
    }

    /// The edge with the same labels and `fun` applied to its weight; it points to no node.
    pub fn map<F, W>(&self, fun: F) -> (e: Edge<W>) where F: Fn(&T) -> W
        requires
            call_requires(fun, (&self.weight,)),
        ensures
            e.from == self.from,
            e.to == self.to,
            call_ensures(fun, (&self.weight,), e.weight),
            e.ref_from.is_none(),
            e.ref_to.is_none(),
    {
        Edge {
            from: clone_label_opt(&self.from),
            to: clone_label_opt(&self.to),
            weight: fun(&self.weight),
            ref_from: None,
            ref_to: None,
        }
    }

    /// The edge with the same labels and its weight written out; it points to no node.
    pub fn stringify(&self) -> (e: Edge<String>) where T: std::fmt::Display
        ensures
            e.from == self.from,
            e.to == self.to,
            vstd::string::to_string_from_display_ensures::<T>(&self.weight, e.weight),
            e.ref_from.is_none(),
            e.ref_to.is_none(),
    {
        Edge {
            from: clone_label_opt(&self.from),
            to: clone_label_opt(&self.to),
            weight: self.weight.to_string(),
            ref_from: None,
            ref_to: None,
        }
    }
}

impl Edge<i32> {
    /// An edge of weight 1 between two labels.
    pub fn new(from: Label, to: Label) -> (e: Self)
        ensures
            e.from == Some(from),
            e.to == Some(to),
            e.weight == 1,
            e.ref_from.is_none(),
            e.ref_to.is_none(),
    {
        Edge::new_weighted(from, to, 1)
    }
}

/// Reversing an edge twice gives back its ends and the nodes it points to; its weight is a
/// clone of a clone of the original.
pub proof fn lemma_reversed_twice<T>(e: Edge<T>, r: Edge<T>, rr: Edge<T>)
    requires
        r.from == e.to,
        r.to == e.from,
        r.ref_from == e.ref_to,
        r.ref_to == e.ref_from,
        rr.from == r.to,
        rr.to == r.from,
        rr.ref_from == r.ref_to,
        rr.ref_to == r.ref_from,
    ensures
        rr.from == e.from,
        rr.to == e.to,
        rr.ref_from == e.ref_from,
        rr.ref_to == e.ref_to,
{
}

} // verus!
