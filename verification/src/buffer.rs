//! The line buffer: a FIFO queue of raw source lines and a second FIFO
//! queue of encoded instructions, both owned by one structure that the
//! translator reads from and writes to.

use vstd::prelude::*;
use vstd::string::StringExecFns;

verus! {

/// A fully encoded instruction: the 32-bit machine word and the 16-bit
/// word address it sits at.
#[derive(Clone, Copy, Debug, PartialEq, Eq, Structural)]
pub struct ParsedNode {
    pub instruction: u32,
    pub address: u16,
}

/// Two FIFO queues on one structure: raw text lines in, encoded
/// instructions out.
pub struct DataInterface {
    lines: Vec<String>,
    parsed: Vec<ParsedNode>,
}

impl DataInterface {
    /// The queued raw lines, oldest first.
    pub closed spec fn lines(self) -> Seq<Seq<char>> {
        self.lines@.map_values(|s: String| s@)
    }

    /// The queued encoded instructions, oldest first.
    pub closed spec fn parsed(self) -> Seq<ParsedNode> {
        self.parsed@
    }

    /// Both queues start empty.
    pub fn new() -> (r: Self)
        ensures
            r.lines() =~= Seq::<Seq<char>>::empty(),
            r.parsed() =~= Seq::<ParsedNode>::empty(),
    {
        Self { lines: Vec::new(), parsed: Vec::new() }
    }

    /// Appends one raw line at the back of the line queue.
    pub fn add_line(&mut self, line: &str)
        ensures
            final(self).lines() =~= old(self).lines().push(line@),
            final(self).parsed() == old(self).parsed(),
    {
        self.lines.push(String::from_str(line));
        proof {
            assert(final(self).lines() =~= old(self).lines().push(line@));
        }
    }

    /// Removes and returns the oldest raw line; `None` on an empty
    /// queue.
    pub fn pop_line(&mut self) -> (r: Option<String>)
        ensures
            match r {
                None => old(self).lines().len() == 0 && *final(self) == *old(self),
                Some(l) => {
                    &&& old(self).lines().len() > 0
                    &&& l@ == old(self).lines()[0]
                    &&& final(self).lines() =~= old(self).lines().drop_first()
                    &&& final(self).parsed() == old(self).parsed()
                },
            },
    {
        if self.lines.len() == 0 {
            return None;
        }
        let l = self.lines.remove(0);
        proof {
            assert(final(self).lines() =~= old(self).lines().drop_first());
        }
        Some(l)
    }

    /// Appends one encoded instruction at the back of the output queue.
    pub fn add_parsed(&mut self, parsed_node: &ParsedNode)
        ensures
            final(self).parsed() == old(self).parsed().push(*parsed_node),
            final(self).lines() == old(self).lines(),
    {
        self.parsed.push(*parsed_node);
    }

    /// Removes and returns the oldest encoded instruction; `None` on an
    /// empty queue.
    pub fn pop_parsed(&mut self) -> (r: Option<ParsedNode>)
        ensures
            match r {
                None => old(self).parsed().len() == 0 && *final(self) == *old(self),
                Some(n) => {
                    &&& old(self).parsed().len() > 0
                    &&& n == old(self).parsed()[0]
                    &&& final(self).parsed() =~= old(self).parsed().drop_first()
                    &&& final(self).lines() == old(self).lines()
                },
            },
    {
        if self.parsed.len() == 0 {
            return None;
        }
        let n = self.parsed.remove(0);
        Some(n)
    }

    /// How many raw lines are queued.
    pub fn lines_len(&self) -> (r: usize)
        ensures
            r == self.lines().len(),
    {
        self.lines.len()
    }

    /// How many encoded instructions are queued.
    pub fn parsed_len(&self) -> (r: usize)
        ensures
            r == self.parsed().len(),
    {
        self.parsed.len()
    }

    /// A borrow of the queued line at position `i`, front being 0.
    pub fn line_at(&self, i: usize) -> (r: &String)
        requires
            i < self.lines().len(),
        ensures
            r@ == self.lines()[i as int],
    {
        &self.lines[i]
    }
}

} // verus!
