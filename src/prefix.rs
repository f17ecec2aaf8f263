//! The glyphs in front of one rendered line.
use vstd::prelude::*;

verus! {

/// Drawn before the name of a node that is the last of its siblings.
pub open spec fn corner() -> Seq<char> {
    seq!['└', '─', '─', ' ']
}

/// Drawn before the name of a node that has a later sibling.
pub open spec fn tee() -> Seq<char> {
    seq!['├', '─', '─', ' ']
}

/// Drawn under an ancestor that was the last of its siblings.
pub open spec fn blank() -> Seq<char> {
    seq![' ', ' ', ' ', ' ']
}

/// Drawn under an ancestor that has a later sibling.
pub open spec fn bar() -> Seq<char> {
    seq!['│', ' ', ' ', ' ']
}

/// The fragment for one ancestor level.
pub open spec fn continuation_fragment(last: bool) -> Seq<char> {
    if last {
        blank()
    } else {
        bar()
    }
}

/// The fragments for a run of ancestor levels, shallowest first.
pub open spec fn continuation(levels: Seq<bool>) -> Seq<char>
    decreases levels.len(),
{
    if levels.len() == 0 {
        Seq::empty()
    } else {
        continuation(levels.drop_last()) + continuation_fragment(levels.last())
    }
}

/// The prefix of a line whose node sits at depth `is_last.len()`, where
/// `is_last[d]` tells whether the node's ancestor at depth `d + 1` (the node
/// itself for the last entry) is the last of its siblings.
///
/// Top-level nodes get no prefix. Deeper ones get one continuation fragment
/// for each ancestor below the top level and a corner or a tee for
/// themselves.
pub open spec fn prefix_of(is_last: Seq<bool>) -> Seq<char> {
    if is_last.len() <= 1 {
        Seq::empty()
    } else {
        continuation(is_last.subrange(1, is_last.len() - 1)) + if is_last.last() {
            corner()
        } else {
            tee()
        }
    }
}

/// Returns the glyphs that precede a node's name, given the last-sibling
/// flags of the node's ancestors and of the node itself.
pub fn line_prefix(is_last: &[bool]) -> (r: String)
    ensures
        r@ == prefix_of(is_last@),
{
    let mut s = String::new();
    let n = is_last.len();
    if n >= 2 {
        let mut i: usize = 1;
        while i + 1 < n
            invariant
                n == is_last@.len(),
                1 <= i <= n - 1,
                s@ == continuation(is_last@.subrange(1, i as int)),
            decreases n - i,
        {
            let ghost before = s@;
            if is_last[i] {
                let frag = "    ";
                proof {
                    reveal_strlit("    ");
                }
                s.append(frag);
            } else {
                let frag = "│   ";
                proof {
                    reveal_strlit("│   ");
                }
                s.append(frag);
            }
            assert(is_last@.subrange(1, i + 1).drop_last() =~= is_last@.subrange(1, i as int));
            i = i + 1;
        }
        if is_last[n - 1] {
            let frag = "└── ";
            proof {
                reveal_strlit("└── ");
            }
            s.append(frag);
        } else {
            let frag = "├── ";
            proof {
                reveal_strlit("├── ");
            }
            s.append(frag);
        }
    }
    s
}

} // verus!
