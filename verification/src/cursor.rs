use vstd::prelude::*;

verus! {

/// How deep arrays and objects may be nested where no other limit is given.
pub const DEFAULT_DEPTH: usize = 128;

/// A forward-only position in a text held in memory, with a count of how
/// many more arrays and objects may be opened inside one another.
pub struct Cursor {
    chars: Vec<char>,
    pos: usize,
    depth: usize,
}

impl Cursor {
    /// The whole text the cursor walks over.
    pub closed spec fn text(&self) -> Seq<char> {
        self.chars@
    }

    /// How many characters have been consumed.
    pub closed spec fn position(&self) -> int {
        self.pos as int
    }

    /// How many more levels of arrays and objects may be opened.
    pub closed spec fn depth_left(&self) -> nat {
        self.depth as nat
    }

    /// The position never passes the end of the text, and the levels left
    /// fit in a `usize`.
    pub open spec fn wf(&self) -> bool {
        &&& 0 <= self.position() <= self.text().len()
        &&& self.depth_left() <= usize::MAX
    }

    /// A cursor at the start of `chars` that allows [`DEFAULT_DEPTH`] levels
    /// of nesting.
    pub fn new(chars: Vec<char>) -> (cursor: Cursor)
        ensures
            cursor.wf(),
            cursor.text() == chars@,
            cursor.position() == 0,
            cursor.depth_left() == DEFAULT_DEPTH,
    {
        Cursor { chars, pos: 0, depth: DEFAULT_DEPTH }
    }

    /// A cursor at the start of `chars` that allows `depth` levels of
    /// nesting.
    pub fn with_depth(chars: Vec<char>, depth: usize) -> (cursor: Cursor)
        ensures
            cursor.wf(),
            cursor.text() == chars@,
            cursor.position() == 0,
            cursor.depth_left() == depth,
    {
        Cursor { chars, pos: 0, depth }
    }

    /// Opens one level of nesting, if one is left, and says whether it did.
    pub fn enter(&mut self) -> (entered: bool)
        requires
            old(self).wf(),
        ensures
            final(self).wf(),
            final(self).text() == old(self).text(),
            final(self).position() == old(self).position(),
            entered == (old(self).depth_left() > 0),
            final(self).depth_left() == (if entered {
                old(self).depth_left() - 1
            } else {
                old(self).depth_left() as int
            }),
    {
        if self.depth == 0 {
            false
        } else {
            self.depth = self.depth - 1;
            true
        }
    }

    /// Closes one level of nesting.
    pub fn leave(&mut self)
        requires
            old(self).wf(),
            old(self).depth_left() < usize::MAX,
        ensures
            final(self).wf(),
            final(self).text() == old(self).text(),
            final(self).position() == old(self).position(),
            final(self).depth_left() == old(self).depth_left() + 1,
    {
        self.depth = self.depth + 1;
    }

    /// The next character, left in place; `None` at the end of the text.
    pub fn peek(&self) -> (next: Option<char>)
        requires
            self.wf(),
        ensures
            next == (if self.position() < self.text().len() {
                Some(self.text()[self.position()])
            } else {
                None
            }),
    {
        if self.pos < self.chars.len() {
            Some(self.chars[self.pos])
        } else {
            None
        }
    }

    /// Consumes one character, if any is left.
    pub fn advance(&mut self)
        requires
            old(self).wf(),
        ensures
            final(self).wf(),
            final(self).text() == old(self).text(),
            final(self).depth_left() == old(self).depth_left(),
            final(self).position() == (if old(self).position() < old(self).text().len() {
                old(self).position() + 1
            } else {
                old(self).position()
            }),
    {
        if self.pos < self.chars.len() {
            self.pos = self.pos + 1;
        }
    }

    /// The characters from `from` up to `to`, as a string.
    pub fn slice(&self, from: usize, to: usize) -> (out: String)
        requires
            from <= to <= self.text().len(),
        ensures
            out@ == self.text().subrange(from as int, to as int),
    {
        let mut out = String::new();
        let mut i: usize = from;
        while i < to
            invariant
                from <= i <= to <= self.chars.len(),
                out@ == self.chars@.subrange(from as int, i as int),
            decreases to - i,
        {
            out.push(self.chars[i]);
            proof {
                assert(self.chars@.subrange(from as int, i as int).push(self.chars@[i as int])
                    =~= self.chars@.subrange(from as int, i + 1));
            }
            i = i + 1;
        }
        out
    }

    /// The number of characters consumed so far.
    pub fn offset(&self) -> (at: usize)
        ensures
            at == self.position(),
    {
        self.pos
    }
}

} // verus!
