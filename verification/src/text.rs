//! A dump of the shape of a subtree as text, for diagnostics.

use vstd::prelude::*;
use crate::forest::Forest;
use crate::helper::Helper;
use crate::node::NodeId;

verus! {

/// The character of a decimal digit.
pub open spec fn digit(d: nat) -> char {
    if d == 0 {
        '0'
    } else if d == 1 {
        '1'
    } else if d == 2 {
        '2'
    } else if d == 3 {
        '3'
    } else if d == 4 {
        '4'
    } else if d == 5 {
        '5'
    } else if d == 6 {
        '6'
    } else if d == 7 {
        '7'
    } else if d == 8 {
        '8'
    } else {
        '9'
    }
}

/// A number in decimal, without leading zeros.
pub open spec fn decimal(n: nat) -> Seq<char>
    decreases n,
{
    if n < 10 {
        seq![digit(n)]
    } else {
        decimal(n / 10).push(digit(n % 10))
    }
}

/// `String::push` of std: appends one character to the text.
#[verifier::external_body]
pub(crate) fn push_char(text: &mut String, c: char)
    ensures
        final(text)@ == old(text)@.push(c),
{
    text.push(c);
}

/// `String::push_str` of std: appends a string slice to the text.
#[verifier::external_body]
pub(crate) fn push_text(text: &mut String, more: &str)
    ensures
        final(text)@ == old(text)@ + more@,
{
    text.push_str(more);
}

/// Appends a number in decimal.
pub(crate) fn push_number(text: &mut String, n: usize)
    ensures
        final(text)@ == old(text)@ + decimal(n as nat),
    decreases n,
{
    if n >= 10 {
        push_number(text, n / 10);
    }
    let d: usize = n % 10;
    let c: char = if d == 0 {
        '0'
    } else if d == 1 {
        '1'
    } else if d == 2 {
        '2'
    } else if d == 3 {
        '3'
    } else if d == 4 {
        '4'
    } else if d == 5 {
        '5'
    } else if d == 6 {
        '6'
    } else if d == 7 {
        '7'
    } else if d == 8 {
        '8'
    } else {
        '9'
    };
    push_char(text, c);
    proof {
        if n < 10 {
            assert(old(text)@.push(c) =~= old(text)@ + decimal(n as nat));
        } else {
            assert((old(text)@ + decimal((n / 10) as nat)).push(c) =~= old(text)@ + decimal(
                n as nat,
            ));
        }
    }
}

/// Appending to what was appended is appending both.
pub proof fn lemma_joined(a: Seq<char>, b: Seq<char>, c: Seq<char>)
    ensures
        (a + b) + c == a + (b + c),
{
    assert((a + b) + c =~= a + (b + c));
}

impl<T, H: Helper<T>> Forest<T, H> {
    /// The text for the subtree below `id`, where `labels` holds the text
    /// for the value of every node: size, depth and value of the node, then
    /// in brackets the texts of its left and of its right subtree, `Nil`
    /// where there is none.
    pub open spec fn rendered(&self, id: NodeId, labels: Seq<Seq<char>>) -> Seq<char>
        decreases self.hi(id) - self.lo(id),
    {
        "Node(size="@ + decimal(self.size_of(id) as nat) + ", depth="@ + decimal(
            self.depth_of(id) as nat,
        ) + ", value="@ + labels[id.0 as int] + ") ["@ + self.rendered_child(id, 0, labels) + ", "@
            + self.rendered_child(id, 1, labels) + "]"@
    }

    /// The text for the child of `id` on `side`.
    pub open spec fn rendered_child(
        &self,
        id: NodeId,
        side: int,
        labels: Seq<Seq<char>>,
    ) -> Seq<char>
        decreases self.hi(id) - self.lo(id), 0int,
    {
        match self.child_of(id, side) {
            Some(c) => if 0 <= self.hi(c) - self.lo(c) < self.hi(id) - self.lo(id) {
                self.rendered(c, labels)
            } else {
                "Nil"@
            },
            None => "Nil"@,
        }
    }

    /// The texts of `labels` as plain sequences.
    pub open spec fn texts(labels: Seq<String>) -> Seq<Seq<char>> {
        Seq::new(labels.len(), |i: int| labels[i]@)
    }

    /// The number of nodes.
    pub fn count(&self) -> (count: usize)
        ensures
            count == self.len(),
    {
        self.slots.len()
    }

    /// Appends the text for the subtree below `id`.
    fn render_into(&self, id: NodeId, labels: &Vec<String>, text: &mut String)
        requires
            self.wf(),
            self.contains(id),
            labels.len() == self.len(),
        ensures
            final(text)@ == old(text)@ + self.rendered(id, Self::texts(labels@)),
        decreases self.hi(id) - self.lo(id),
    {
        let ghost texts = Self::texts(labels@);
        let ghost start = text@;
        let node = self.get(id);
        push_text(text, "Node(size=");
        let ghost with_size_label = "Node(size="@;
        push_number(text, node.size);
        let ghost with_size = with_size_label + decimal(self.size_of(id) as nat);
        proof {
            lemma_joined(start, with_size_label, decimal(self.size_of(id) as nat));
        }
        push_text(text, ", depth=");
        let ghost with_depth_label = with_size + ", depth="@;
        proof {
            lemma_joined(start, with_size, ", depth="@);
        }
        push_number(text, node.depth);
        let ghost with_depth = with_depth_label + decimal(self.depth_of(id) as nat);
        proof {
            lemma_joined(start, with_depth_label, decimal(self.depth_of(id) as nat));
        }
        push_text(text, ", value=");
        let ghost with_value_label = with_depth + ", value="@;
        proof {
            lemma_joined(start, with_depth, ", value="@);
        }
        push_text(text, labels[id.0].as_str());
        let ghost with_value = with_value_label + texts[id.0 as int];
        proof {
            lemma_joined(start, with_value_label, texts[id.0 as int]);
        }
        push_text(text, ") [");
        let ghost with_bracket = with_value + ") ["@;
        proof {
            lemma_joined(start, with_value, ") ["@);
        }
        match node.children[0] {
            Some(c) => {
                proof {
                    self.lemma_child_below(id, 0);
                    assert(self.shape_ok(c));
                }
                self.render_into(c, labels, text);
            },
            None => {
                push_text(text, "Nil");
            },
        }
        let ghost with_left = with_bracket + self.rendered_child(id, 0, texts);
        proof {
            lemma_joined(start, with_bracket, self.rendered_child(id, 0, texts));
        }
        push_text(text, ", ");
        let ghost with_comma = with_left + ", "@;
        proof {
            lemma_joined(start, with_left, ", "@);
        }
        match node.children[1] {
            Some(c) => {
                proof {
                    self.lemma_child_below(id, 1);
                    assert(self.shape_ok(c));
                }
                self.render_into(c, labels, text);
            },
            None => {
                push_text(text, "Nil");
            },
        }
        let ghost with_right = with_comma + self.rendered_child(id, 1, texts);
        proof {
            lemma_joined(start, with_comma, self.rendered_child(id, 1, texts));
        }
        push_text(text, "]");
        proof {
            lemma_joined(start, with_right, "]"@);
        }
    }

    /// The text for the subtree below `id`.  `labels` holds for every node
    /// of the forest the text that stands for its value.
    pub fn render(&self, id: NodeId, labels: &Vec<String>) -> (text: String)
        requires
            self.wf(),
            self.contains(id),
            labels.len() == self.len(),
        ensures
            text@ == self.rendered(id, Self::texts(labels@)),
    {
        let mut text = String::new();
        self.render_into(id, labels, &mut text);
        proof {
            assert(Seq::<char>::empty() + self.rendered(id, Self::texts(labels@))
                =~= self.rendered(id, Self::texts(labels@)));
        }
        text
    }
}

} // verus!
