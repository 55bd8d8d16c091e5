//! The textual rendering of the list: one line per task, showing the
//! task's id, its title and a completion label.

use vstd::prelude::*;

use crate::store::Task;
use crate::store::TaskList;
use crate::store::TaskView;
use crate::text::chars_of;
use crate::text::dec_of;
use crate::text::push_dec;
use crate::text::string_from_chars;

verus! {

/// The completion label of a task.
pub open spec fn label_of(completed: bool) -> Seq<char> {
    if completed {
        seq!['C', 'o', 'm', 'p', 'l', 'e', 't', 'e', 'd']
    } else {
        seq!['N', 'o', 't', ' ', 'c', 'o', 'm', 'p', 'l', 'e', 't', 'e', 'd']
    }
}

/// One display line: `[id] title - label`.
pub open spec fn render_line_spec(t: TaskView) -> Seq<char> {
    seq!['['] + dec_of(t.id as nat) + seq![']', ' '] + t.title + seq![' ', '-', ' '] + label_of(
        t.completed,
    )
}

/// The display line for one task.
#[verifier::rlimit(100)]
pub fn render_line(t: &Task) -> (r: String)
    ensures
        r@ == render_line_spec(t@),
{
    let mut out: Vec<char> = Vec::new();
    out.push('[');
    let ghost p1 = seq!['['];
    proof {
        assert(out@ =~= p1);
    }
    push_dec(t.id, &mut out);
    let ghost p2 = p1 + dec_of(t@.id as nat);
    out.push(']');
    out.push(' ');
    let ghost p3 = p2 + seq![']', ' '];
    proof {
        assert(out@ =~= p3);
    }
    let cs = chars_of(t.title.as_str());
    let n = cs.len();
    for i in iter: 0..n
        invariant
            n == cs.len(),
            cs@ == t@.title,
            out@ == p3 + cs@.take(i as int),
    {
        out.push(cs[i]);
        proof {
            assert(out@ =~= p3 + cs@.take(i + 1));
        }
    }
    let ghost p4 = p3 + t@.title;
    proof {
        assert(cs@.take(n as int) =~= cs@);
        assert(out@ =~= p4);
    }
    out.push(' ');
    out.push('-');
    out.push(' ');
    let ghost p5 = p4 + seq![' ', '-', ' '];
    proof {
        assert(out@ =~= p5);
    }
    if t.completed {
        out.push('C');
        out.push('o');
        out.push('m');
        out.push('p');
        out.push('l');
        out.push('e');
        out.push('t');
        out.push('e');
        out.push('d');
    } else {
        out.push('N');
        out.push('o');
        out.push('t');
        out.push(' ');
        out.push('c');
        out.push('o');
        out.push('m');
        out.push('p');
        out.push('l');
        out.push('e');
        out.push('t');
        out.push('e');
        out.push('d');
    }
    proof {
        assert(out@ =~= p5 + label_of(t@.completed));
        assert(p5 + label_of(t@.completed) =~= render_line_spec(t@));
    }
    string_from_chars(&out)
}

impl TaskList {
    /// All display lines, in display order; reading them changes nothing.
    pub fn list_lines(&self) -> (r: Vec<String>)
        ensures
            r@.len() == self@.len(),
            forall|i: int| 0 <= i < self@.len() ==> r@[i]@ == render_line_spec(self@[i]),
    {
        let mut r: Vec<String> = Vec::new();
        let n = self.len();
        for i in iter: 0..n
            invariant
                n == self@.len(),
                r@.len() == i,
                forall|k: int| 0 <= k < i ==> r@[k]@ == render_line_spec(self@[k]),
        {
            r.push(render_line(self.get(i)));
        }
        r
    }
}

} // verus!
