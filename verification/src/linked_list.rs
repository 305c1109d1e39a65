//! A singly linked list of `i32` built from `Option<Box<ListNode>>`, and its
//! reversal by moving pointers.
use vstd::prelude::*;

verus! {

#[derive(Debug, PartialEq, Eq)]
pub struct ListNode {
    pub val: i32,
    pub next: Option<Box<ListNode>>,
}

/// The values of a list, from the head.
pub open spec fn values(l: Option<Box<ListNode>>) -> Seq<i32>
    decreases l,
{
    match l {
        None => Seq::empty(),
        Some(node) => seq![node.val] + values(node.next),
    }
}

impl ListNode {
    /// A list holding `values` in order.
    pub fn from_slice(values: &[i32]) -> (r: Option<Box<ListNode>>)
        ensures
            crate::linked_list::values(r) == values@,
    {
        let mut head: Option<Box<ListNode>> = None;
        let mut i = values.len();
        while i > 0
            invariant
                i <= values@.len(),
                crate::linked_list::values(head) == values@.subrange(i as int, values@.len() as int),
            decreases i,
        {
            i = i - 1;
            head = Some(Box::new(ListNode { val: values[i], next: head }));
            assert(crate::linked_list::values(head) =~= values@.subrange(i as int, values@.len() as int));
        }
        head
    }

    /// The values of the list, from the head.
    pub fn to_vec(head: Option<Box<ListNode>>) -> (r: Vec<i32>)
        ensures
            r@ == values(head),
    {
        let mut result: Vec<i32> = Vec::new();
        let mut current = head;
        loop
            invariant
                result@ + values(current) == values(head),
            decreases values(current).len(),
        {
            match current {
                None => {
                    assert(result@ =~= values(head));
                    return result;
                },
                Some(node) => {
                    result.push(node.val);
                    current = node.next;
                    assert(result@ + values(current) =~= values(head));
                },
            }
        }
    }
}

/// The list with its nodes in reverse order.
pub fn reverse_list(head: Option<Box<ListNode>>) -> (r: Option<Box<ListNode>>)
    ensures
        values(r) == values(head).reverse(),
{
    let mut previous: Option<Box<ListNode>> = None;
    let mut current = head;
    loop
        invariant
            values(previous).reverse() + values(current) == values(head),
        decreases values(current).len(),
    {
        match current {
            None => {
                assert(values(previous).reverse() =~= values(head));
                assert(values(previous).reverse().reverse() =~= values(previous));
                return previous;
            },
            Some(mut node) => {
                let ghost prev_vals = values(previous);
                let ghost val = node.val;
                current = node.next.take();
                node.next = previous;
                previous = Some(node);
                assert(values(previous) == seq![val] + prev_vals);
                assert(values(previous).reverse() =~= prev_vals.reverse().push(val));
                assert(values(previous).reverse() + values(current) =~= values(head));
            },
        }
    }
}

} // verus!
